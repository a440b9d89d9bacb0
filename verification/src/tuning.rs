//! The concert-pitch tuning table: the reference frequency of every
//! chromatic pitch from A0 up to B9, in millihertz, in ascending order.
//! The values are fixed constants of standard concert tuning (A4 at
//! 440 Hz), kept as a literal table so that callers see the exact
//! published frequencies rather than values computed from a formula.

use vstd::prelude::*;

verus! {

/// How many pitches the tuning table covers: A0 up to B9.
pub open spec fn tuning_count() -> int {
    111
}

/// The tuning table: the reference frequency in millihertz of the pitch
/// `i` semitones above A0, or 0 outside the table.
pub open spec fn tuning_freq(i: int) -> u64 {
    if i == 0 {
        27500
    } else if i == 1 {
        29135
    } else if i == 2 {
        30868
    } else if i == 3 {
        32703
    } else if i == 4 {
        34648
    } else if i == 5 {
        36708
    } else if i == 6 {
        38891
    } else if i == 7 {
        41203
    } else if i == 8 {
        43654
    } else if i == 9 {
        46249
    } else if i == 10 {
        48999
    } else if i == 11 {
        51913
    } else if i == 12 {
        55000
    } else if i == 13 {
        58270
    } else if i == 14 {
        61735
    } else if i == 15 {
        65406
    } else if i == 16 {
        69296
    } else if i == 17 {
        73416
    } else if i == 18 {
        77782
    } else if i == 19 {
        82407
    } else if i == 20 {
        87307
    } else if i == 21 {
        92499
    } else if i == 22 {
        97999
    } else if i == 23 {
        103826
    } else if i == 24 {
        110000
    } else if i == 25 {
        116541
    } else if i == 26 {
        123471
    } else if i == 27 {
        130813
    } else if i == 28 {
        138591
    } else if i == 29 {
        146832
    } else if i == 30 {
        155563
    } else if i == 31 {
        164814
    } else if i == 32 {
        174614
    } else if i == 33 {
        184997
    } else if i == 34 {
        195998
    } else if i == 35 {
        207652
    } else if i == 36 {
        220000
    } else if i == 37 {
        233082
    } else if i == 38 {
        246942
    } else if i == 39 {
        261626
    } else if i == 40 {
        277183
    } else if i == 41 {
        293665
    } else if i == 42 {
        311127
    } else if i == 43 {
        329628
    } else if i == 44 {
        349228
    } else if i == 45 {
        369994
    } else if i == 46 {
        391995
    } else if i == 47 {
        415305
    } else if i == 48 {
        440000
    } else if i == 49 {
        466164
    } else if i == 50 {
        493883
    } else if i == 51 {
        523251
    } else if i == 52 {
        554365
    } else if i == 53 {
        587330
    } else if i == 54 {
        622254
    } else if i == 55 {
        659255
    } else if i == 56 {
        698456
    } else if i == 57 {
        739989
    } else if i == 58 {
        783991
    } else if i == 59 {
        830609
    } else if i == 60 {
        880000
    } else if i == 61 {
        932328
    } else if i == 62 {
        987767
    } else if i == 63 {
        1046502
    } else if i == 64 {
        1108731
    } else if i == 65 {
        1174659
    } else if i == 66 {
        1244508
    } else if i == 67 {
        1318510
    } else if i == 68 {
        1396913
    } else if i == 69 {
        1479978
    } else if i == 70 {
        1567982
    } else if i == 71 {
        1661219
    } else if i == 72 {
        1760000
    } else if i == 73 {
        1864655
    } else if i == 74 {
        1975533
    } else if i == 75 {
        2093005
    } else if i == 76 {
        2217461
    } else if i == 77 {
        2349318
    } else if i == 78 {
        2489016
    } else if i == 79 {
        2637020
    } else if i == 80 {
        2793826
    } else if i == 81 {
        2959955
    } else if i == 82 {
        3135963
    } else if i == 83 {
        3322438
    } else if i == 84 {
        3520000
    } else if i == 85 {
        3729310
    } else if i == 86 {
        3951066
    } else if i == 87 {
        4186009
    } else if i == 88 {
        4434922
    } else if i == 89 {
        4698636
    } else if i == 90 {
        4978032
    } else if i == 91 {
        5274041
    } else if i == 92 {
        5587652
    } else if i == 93 {
        5919910
    } else if i == 94 {
        6271927
    } else if i == 95 {
        6644875
    } else if i == 96 {
        7040000
    } else if i == 97 {
        7458620
    } else if i == 98 {
        7902132
    } else if i == 99 {
        8372018
    } else if i == 100 {
        8869844
    } else if i == 101 {
        9397272
    } else if i == 102 {
        9956064
    } else if i == 103 {
        10548082
    } else if i == 104 {
        11175304
    } else if i == 105 {
        11839820
    } else if i == 106 {
        12543854
    } else if i == 107 {
        13289750
    } else if i == 108 {
        14080000
    } else if i == 109 {
        14917240
    } else if i == 110 {
        15804264
    } else {
        0
    }
}

/// One entry of the tuning table.
fn tuning_freq_at(i: usize) -> (r: u64)
    requires
        i < tuning_count(),
    ensures
        r == tuning_freq(i as int),
{
    match i {
        0 => 27500,
        1 => 29135,
        2 => 30868,
        3 => 32703,
        4 => 34648,
        5 => 36708,
        6 => 38891,
        7 => 41203,
        8 => 43654,
        9 => 46249,
        10 => 48999,
        11 => 51913,
        12 => 55000,
        13 => 58270,
        14 => 61735,
        15 => 65406,
        16 => 69296,
        17 => 73416,
        18 => 77782,
        19 => 82407,
        20 => 87307,
        21 => 92499,
        22 => 97999,
        23 => 103826,
        24 => 110000,
        25 => 116541,
        26 => 123471,
        27 => 130813,
        28 => 138591,
        29 => 146832,
        30 => 155563,
        31 => 164814,
        32 => 174614,
        33 => 184997,
        34 => 195998,
        35 => 207652,
        36 => 220000,
        37 => 233082,
        38 => 246942,
        39 => 261626,
        40 => 277183,
        41 => 293665,
        42 => 311127,
        43 => 329628,
        44 => 349228,
        45 => 369994,
        46 => 391995,
        47 => 415305,
        48 => 440000,
        49 => 466164,
        50 => 493883,
        51 => 523251,
        52 => 554365,
        53 => 587330,
        54 => 622254,
        55 => 659255,
        56 => 698456,
        57 => 739989,
        58 => 783991,
        59 => 830609,
        60 => 880000,
        61 => 932328,
        62 => 987767,
        63 => 1046502,
        64 => 1108731,
        65 => 1174659,
        66 => 1244508,
        67 => 1318510,
        68 => 1396913,
        69 => 1479978,
        70 => 1567982,
        71 => 1661219,
        72 => 1760000,
        73 => 1864655,
        74 => 1975533,
        75 => 2093005,
        76 => 2217461,
        77 => 2349318,
        78 => 2489016,
        79 => 2637020,
        80 => 2793826,
        81 => 2959955,
        82 => 3135963,
        83 => 3322438,
        84 => 3520000,
        85 => 3729310,
        86 => 3951066,
        87 => 4186009,
        88 => 4434922,
        89 => 4698636,
        90 => 4978032,
        91 => 5274041,
        92 => 5587652,
        93 => 5919910,
        94 => 6271927,
        95 => 6644875,
        96 => 7040000,
        97 => 7458620,
        98 => 7902132,
        99 => 8372018,
        100 => 8869844,
        101 => 9397272,
        102 => 9956064,
        103 => 10548082,
        104 => 11175304,
        105 => 11839820,
        106 => 12543854,
        107 => 13289750,
        108 => 14080000,
        109 => 14917240,
        110 => 15804264,
        _ => 0,
    }
}

/// The tuning table, one frequency in millihertz per semitone from A0 up,
/// in ascending order.
pub fn std_tuning() -> (r: Vec<u64>)
    ensures
        r@.len() == tuning_count(),
        forall|i: int| 0 <= i < tuning_count() ==> r@[i] == tuning_freq(i),
{
    let mut v: Vec<u64> = Vec::new();
    let mut i: usize = 0;
    while i < 111
        invariant
            i <= 111,
            v@.len() == i,
            forall|j: int| 0 <= j < i ==> v@[j] == tuning_freq(j),
        decreases 111 - i,
    {
        v.push(tuning_freq_at(i));
        i = i + 1;
    }
    v
}

/// The tuning table is strictly ascending: a higher semitone has a strictly
/// higher reference frequency.
pub proof fn lemma_tuning_sorted()
    ensures
        forall|i: int, j: int| 0 <= i < j < tuning_count() ==> tuning_freq(i) < tuning_freq(j),
{
    assert forall|k: int| 0 <= k < tuning_count() - 1 implies #[trigger] tuning_freq(k)
        < tuning_freq(k + 1) by {}
    assert forall|i: int, j: int| 0 <= i < j < tuning_count() implies tuning_freq(i) < tuning_freq(
        j,
    ) by {
        lemma_tuning_lt(i, j);
    }
}

/// Between any two table positions, frequency grows with the position.
proof fn lemma_tuning_lt(i: int, j: int)
    requires
        0 <= i < j < tuning_count(),
        forall|k: int| 0 <= k < tuning_count() - 1 ==> #[trigger] tuning_freq(k) < tuning_freq(k + 1),
    ensures
        tuning_freq(i) < tuning_freq(j),
    decreases j - i,
{
    if j > i + 1 {
        lemma_tuning_lt(i, j - 1);
    }
}

} // verus!
