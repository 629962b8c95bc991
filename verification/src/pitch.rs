//! Pitch in semitones and in octaves.
//!
//! Twelve semitones make an octave, which doubles the pitch, so a semitone
//! raises it by the twelfth root of two. That root is no ratio of whole
//! numbers: the steps are kept in a table, each as the nearest whole number
//! of sixty-five-thousand-five-hundred-and-thirty-sixths. A pitch between two
//! semitones is taken from the straight line between the two.

use vstd::prelude::*;
use crate::ratio::Ratio;

verus! {

/// The number of sixty-five-thousand-five-hundred-and-thirty-sixths that is
/// nearest to the pitch ratio of `k` semitones, for the twelve steps of an
/// octave.
pub open spec fn semitone_num(k: int) -> int {
    if k == 0 {
        65536
    } else if k == 1 {
        69433
    } else if k == 2 {
        73562
    } else if k == 3 {
        77936
    } else if k == 4 {
        82570
    } else if k == 5 {
        87480
    } else if k == 6 {
        92682
    } else if k == 7 {
        98193
    } else if k == 8 {
        104032
    } else if k == 9 {
        110218
    } else if k == 10 {
        116772
    } else {
        123715
    }
}

/// The twelfth power of a number.
pub open spec fn twelfth_power(x: int) -> int {
    let x2 = x * x;
    let x4 = x2 * x2;
    x4 * x4 * x4
}

/// Twelve semitones make an octave: the twelfth power of the ratio of a
/// semitone is two. Each entry of the table is the whole number of
/// sixty-five-thousand-five-hundred-and-thirty-sixths that lies nearest to
/// the ratio of its step: half a part less is too little, half a part more is
/// too much.
pub proof fn lemma_semitone_table()
    ensures
        twelfth_power(2 * semitone_num(0) - 1) <= 1 * twelfth_power(131072) < twelfth_power(
            2 * semitone_num(0) + 1,
        ),
        twelfth_power(2 * semitone_num(1) - 1) <= 2 * twelfth_power(131072) < twelfth_power(
            2 * semitone_num(1) + 1,
        ),
        twelfth_power(2 * semitone_num(2) - 1) <= 4 * twelfth_power(131072) < twelfth_power(
            2 * semitone_num(2) + 1,
        ),
        twelfth_power(2 * semitone_num(3) - 1) <= 8 * twelfth_power(131072) < twelfth_power(
            2 * semitone_num(3) + 1,
        ),
        twelfth_power(2 * semitone_num(4) - 1) <= 16 * twelfth_power(131072) < twelfth_power(
            2 * semitone_num(4) + 1,
        ),
        twelfth_power(2 * semitone_num(5) - 1) <= 32 * twelfth_power(131072) < twelfth_power(
            2 * semitone_num(5) + 1,
        ),
        twelfth_power(2 * semitone_num(6) - 1) <= 64 * twelfth_power(131072) < twelfth_power(
            2 * semitone_num(6) + 1,
        ),
        twelfth_power(2 * semitone_num(7) - 1) <= 128 * twelfth_power(131072) < twelfth_power(
            2 * semitone_num(7) + 1,
        ),
        twelfth_power(2 * semitone_num(8) - 1) <= 256 * twelfth_power(131072) < twelfth_power(
            2 * semitone_num(8) + 1,
        ),
        twelfth_power(2 * semitone_num(9) - 1) <= 512 * twelfth_power(131072) < twelfth_power(
            2 * semitone_num(9) + 1,
        ),
        twelfth_power(2 * semitone_num(10) - 1) <= 1024 * twelfth_power(131072) < twelfth_power(
            2 * semitone_num(10) + 1,
        ),
        twelfth_power(2 * semitone_num(11) - 1) <= 2048 * twelfth_power(131072) < twelfth_power(
            2 * semitone_num(11) + 1,
        ),
{
    assert(twelfth_power(131072)
        == 25711008708143844408671393477458601640355247900524685364822016int) by {
        assert(131072int * 131072int == 17179869184int) by (nonlinear_arith);
        assert(17179869184int * 17179869184int == 295147905179352825856int) by (nonlinear_arith);
        assert(295147905179352825856int * 295147905179352825856int
            * 295147905179352825856int
            == 25711008708143844408671393477458601640355247900524685364822016int) by (nonlinear_arith);
    }
    assert(twelfth_power(131071)
        == 25708654893764689147937590557532269159407071624816285243146241int) by {
        assert(131071int * 131071int == 17179607041int) by (nonlinear_arith);
        assert(17179607041int * 17179607041int == 295138898083176775681int) by (nonlinear_arith);
        assert(295138898083176775681int * 295138898083176775681int
            * 295138898083176775681int
            == 25708654893764689147937590557532269159407071624816285243146241int) by (nonlinear_arith);
    }
    assert(twelfth_power(131073)
        == 25713362720071253070389845126953723007234896046586968101355521int) by {
        assert(131073int * 131073int == 17180131329int) by (nonlinear_arith);
        assert(17180131329int * 17180131329int == 295156912481687306241int) by (nonlinear_arith);
        assert(295156912481687306241int * 295156912481687306241int
            * 295156912481687306241int
            == 25713362720071253070389845126953723007234896046586968101355521int) by (nonlinear_arith);
    }
    assert(twelfth_power(138865)
        == 51417810804229554148251267562259461731469587471456621337890625int) by {
        assert(138865int * 138865int == 19283488225int) by (nonlinear_arith);
        assert(19283488225int * 19283488225int == 371852918123713650625int) by (nonlinear_arith);
        assert(371852918123713650625int * 371852918123713650625int
            * 371852918123713650625int
            == 51417810804229554148251267562259461731469587471456621337890625int) by (nonlinear_arith);
    }
    assert(twelfth_power(138867)
        == 51426698034386776188467427551122803368911937096982076079549361int) by {
        assert(138867int * 138867int == 19284043689int) by (nonlinear_arith);
        assert(19284043689int * 19284043689int == 371874340999260728721int) by (nonlinear_arith);
        assert(371874340999260728721int * 371874340999260728721int
            * 371874340999260728721int
            == 51426698034386776188467427551122803368911937096982076079549361int) by (nonlinear_arith);
    }
    assert(twelfth_power(147123)
        == 102841135874967493578858712748110847207248701871965917489900721int) by {
        assert(147123int * 147123int == 21645177129int) by (nonlinear_arith);
        assert(21645177129int * 21645177129int == 468513692945784682641int) by (nonlinear_arith);
        assert(468513692945784682641int * 468513692945784682641int
            * 468513692945784682641int
            == 102841135874967493578858712748110847207248701871965917489900721int) by (nonlinear_arith);
    }
    assert(twelfth_power(147125)
        == 102857913481522794624622762692050768542685545980930328369140625int) by {
        assert(147125int * 147125int == 21645765625int) by (nonlinear_arith);
        assert(21645765625int * 21645765625int == 468539169492431640625int) by (nonlinear_arith);
        assert(468539169492431640625int * 468539169492431640625int
            * 468539169492431640625int
            == 102857913481522794624622762692050768542685545980930328369140625int) by (nonlinear_arith);
    }
    assert(twelfth_power(155871)
        == 205676114779089190295672842463714043410385640552365348630035841int) by {
        assert(155871int * 155871int == 24295768641int) by (nonlinear_arith);
        assert(24295768641int * 24295768641int == 590284373856998986881int) by (nonlinear_arith);
        assert(590284373856998986881int * 590284373856998986881int
            * 590284373856998986881int
            == 205676114779089190295672842463714043410385640552365348630035841int) by (nonlinear_arith);
    }
    assert(twelfth_power(155873)
        == 205707785680828013430483274898850147067232989003500600136110721int) by {
        assert(155873int * 155873int == 24296392129int) by (nonlinear_arith);
        assert(24296392129int * 24296392129int == 590314670486133152641int) by (nonlinear_arith);
        assert(590314670486133152641int * 590314670486133152641int
            * 590314670486133152641int
            == 205707785680828013430483274898850147067232989003500600136110721int) by (nonlinear_arith);
    }
    assert(twelfth_power(165139)
        == 411335132665577521099089357108911248983472265848203545737231921int) by {
        assert(165139int * 165139int == 27270889321int) by (nonlinear_arith);
        assert(27270889321int * 27270889321int == 743701404358231841041int) by (nonlinear_arith);
        assert(743701404358231841041int * 743701404358231841041int
            * 743701404358231841041int
            == 411335132665577521099089357108911248983472265848203545737231921int) by (nonlinear_arith);
    }
    assert(twelfth_power(165141)
        == 411394916852188619852885023694641357903681918302046658510155281int) by {
        assert(165141int * 165141int == 27271549881int) by (nonlinear_arith);
        assert(27271549881int * 27271549881int == 743737432911871114161int) by (nonlinear_arith);
        assert(743737432911871114161int * 743737432911871114161int
            * 743737432911871114161int
            == 411394916852188619852885023694641357903681918302046658510155281int) by (nonlinear_arith);
    }
    assert(twelfth_power(174959)
        == 822688550636607743883912911727434832717983588460239199890086081int) by {
        assert(174959int * 174959int == 30610651681int) by (nonlinear_arith);
        assert(30610651681int * 30610651681int == 937011996335508125761int) by (nonlinear_arith);
        assert(937011996335508125761int * 937011996335508125761int
            * 937011996335508125761int
            == 822688550636607743883912911727434832717983588460239199890086081int) by (nonlinear_arith);
    }
    assert(twelfth_power(174961)
        == 822801410030167720612404997669163254570568369392641484704525121int) by {
        assert(174961int * 174961int == 30611351521int) by (nonlinear_arith);
        assert(30611351521int * 30611351521int == 937054841942229013441int) by (nonlinear_arith);
        assert(937054841942229013441int * 937054841942229013441int
            * 937054841942229013441int
            == 822801410030167720612404997669163254570568369392641484704525121int) by (nonlinear_arith);
    }
    assert(twelfth_power(185363)
        == 1645419333539465866812119085389374413902968805167757773320632881int) by {
        assert(185363int * 185363int == 34359441769int) by (nonlinear_arith);
        assert(34359441769int * 34359441769int == 1180571238677301849361int) by (nonlinear_arith);
        assert(1180571238677301849361int * 1180571238677301849361int
            * 1180571238677301849361int
            == 1645419333539465866812119085389374413902968805167757773320632881int) by (nonlinear_arith);
    }
    assert(twelfth_power(185365)
        == 1645632387965369875801576649080838841228106103155297734619140625int) by {
        assert(185365int * 185365int == 34360183225int) by (nonlinear_arith);
        assert(34360183225int * 34360183225int == 1180622191255571400625int) by (nonlinear_arith);
        assert(1180622191255571400625int * 1180622191255571400625int
            * 1180622191255571400625int
            == 1645632387965369875801576649080838841228106103155297734619140625int) by (nonlinear_arith);
    }
    assert(twelfth_power(196385)
        == 3290786876141724806723923688376351449623358800978688261962890625int) by {
        assert(196385int * 196385int == 38567068225int) by (nonlinear_arith);
        assert(38567068225int * 38567068225int == 1487418751471804650625int) by (nonlinear_arith);
        assert(1487418751471804650625int * 1487418751471804650625int
            * 1487418751471804650625int
            == 3290786876141724806723923688376351449623358800978688261962890625int) by (nonlinear_arith);
    }
    assert(twelfth_power(196387)
        == 3291189062199603054805597025009173157078365766001812883779360881int) by {
        assert(196387int * 196387int == 38567853769int) by (nonlinear_arith);
        assert(38567853769int * 38567853769int == 1487479344346967505361int) by (nonlinear_arith);
        assert(1487479344346967505361int * 1487479344346967505361int
            * 1487479344346967505361int
            == 3291189062199603054805597025009173157078365766001812883779360881int) by (nonlinear_arith);
    }
    assert(twelfth_power(208063)
        == 6581702895993317236008301454347461270732191646927756261227431681int) by {
        assert(208063int * 208063int == 43290211969int) by (nonlinear_arith);
        assert(43290211969int * 43290211969int == 1874042452320950856961int) by (nonlinear_arith);
        assert(1874042452320950856961int * 1874042452320950856961int
            * 1874042452320950856961int
            == 6581702895993317236008301454347461270732191646927756261227431681int) by (nonlinear_arith);
    }
    assert(twelfth_power(208065)
        == 6582462133440349233865871464665943233501109005397322480712890625int) by {
        assert(208065int * 208065int == 43291044225int) by (nonlinear_arith);
        assert(43291044225int * 43291044225int == 1874114510090905850625int) by (nonlinear_arith);
        assert(1874114510090905850625int * 1874114510090905850625int
            * 1874114510090905850625int
            == 6582462133440349233865871464665943233501109005397322480712890625int) by (nonlinear_arith);
    }
    assert(twelfth_power(220435)
        == 13163355773110033289747105399382087345338063155796943867431640625int) by {
        assert(220435int * 220435int == 48591589225int) by (nonlinear_arith);
        assert(48591589225int * 48591589225int == 2361142543411136100625int) by (nonlinear_arith);
        assert(2361142543411136100625int * 2361142543411136100625int
            * 2361142543411136100625int
            == 13163355773110033289747105399382087345338063155796943867431640625int) by (nonlinear_arith);
    }
    assert(twelfth_power(220437)
        == 13164789013311847609555123736000521092097168778545598334969777681int) by {
        assert(220437int * 220437int == 48592470969int) by (nonlinear_arith);
        assert(48592470969int * 48592470969int == 2361228234873107798961int) by (nonlinear_arith);
        assert(2361228234873107798961int * 2361228234873107798961int
            * 2361228234873107798961int
            == 13164789013311847609555123736000521092097168778545598334969777681int) by (nonlinear_arith);
    }
    assert(twelfth_power(233543)
        == 26327053511792235509393170679149900976812686988410685920944090401int) by {
        assert(233543int * 233543int == 54542332849int) by (nonlinear_arith);
        assert(54542332849int * 54542332849int == 2974866072611104456801int) by (nonlinear_arith);
        assert(2974866072611104456801int * 2974866072611104456801int
            * 2974866072611104456801int
            == 26327053511792235509393170679149900976812686988410685920944090401int) by (nonlinear_arith);
    }
    assert(twelfth_power(233545)
        == 26329759133650185564783618004177707110493363885954384785400390625int) by {
        assert(233545int * 233545int == 54543267025int) by (nonlinear_arith);
        assert(54543267025int * 54543267025int == 2974967977760452350625int) by (nonlinear_arith);
        assert(2974967977760452350625int * 2974967977760452350625int
            * 2974967977760452350625int
            == 26329759133650185564783618004177707110493363885954384785400390625int) by (nonlinear_arith);
    }
    assert(twelfth_power(247429)
        == 52651069679170914841513436690735149866646832910904779279868764241int) by {
        assert(247429int * 247429int == 61221110041int) by (nonlinear_arith);
        assert(61221110041int * 61221110041int == 3748024314652231021681int) by (nonlinear_arith);
        assert(3748024314652231021681int * 3748024314652231021681int
            * 3748024314652231021681int
            == 52651069679170914841513436690735149866646832910904779279868764241int) by (nonlinear_arith);
    }
    assert(twelfth_power(247431)
        == 52656176929537970613903785474185311258705024109605493686704982561int) by {
        assert(247431int * 247431int == 61222099761int) by (nonlinear_arith);
        assert(61222099761int * 61222099761int == 3748145499145836257121int) by (nonlinear_arith);
        assert(3748145499145836257121int * 3748145499145836257121int
            * 3748145499145836257121int
            == 52656176929537970613903785474185311258705024109605493686704982561int) by (nonlinear_arith);
    }
}

/// The pitch ratio of `n` semitones, from an octave down to an octave up.
pub open spec fn semitone_ratio(n: int) -> Ratio {
    if n >= 12 {
        Ratio { num: 131072, den: 65536 }
    } else if n >= 0 {
        Ratio { num: semitone_num(n) as u64, den: 65536 }
    } else {
        Ratio { num: semitone_num(n + 12) as u64, den: 131072 }
    }
}

/// The pitch ratio of `k` semitones, for the twelve steps of an octave.
fn semitone_step(k: u32) -> (r: u64)
    requires
        k < 12,
    ensures
        r == semitone_num(k as int),
        65536 <= r < 131072,
{
    if k == 0 {
        65536
    } else if k == 1 {
        69433
    } else if k == 2 {
        73562
    } else if k == 3 {
        77936
    } else if k == 4 {
        82570
    } else if k == 5 {
        87480
    } else if k == 6 {
        92682
    } else if k == 7 {
        98193
    } else if k == 8 {
        104032
    } else if k == 9 {
        110218
    } else if k == 10 {
        116772
    } else {
        123715
    }
}

/// The pitch ratio of `n` semitones; none below an octave down or above an
/// octave up.
pub fn ratio_of_semitones(n: i32) -> (r: Option<Ratio>)
    ensures
        r is Some <==> -12 <= n <= 12,
        r matches Some(q) ==> q == semitone_ratio(n as int) && q.wf(),
{
    if n < -12 || n > 12 {
        None
    } else if n == 12 {
        Some(Ratio { num: 131072, den: 65536 })
    } else if n >= 0 {
        Some(Ratio { num: semitone_step(n as u32), den: 65536 })
    } else {
        Some(Ratio { num: semitone_step((n + 12) as u32), den: 131072 })
    }
}

/// The pitch ratio of the semitone `k` of the two octaves from an octave down
/// to an octave up, in hundred-and-thirty-one-thousand-and-seventy-second
/// parts: a half at the semitone nought, one at twelve, two at twenty-four.
pub open spec fn two_octaves(k: int) -> int {
    if k < 12 {
        semitone_num(k)
    } else if k < 24 {
        2 * semitone_num(k - 12)
    } else {
        262144
    }
}

/// The pitch ratio of `milli` thousandths of an octave, from an octave down
/// to an octave up: the ratio of the semitone below, and as much of the way
/// to the ratio of the semitone above as the pitch lies above the one,
/// rounded down.
pub open spec fn octave_ratio(milli: int) -> Ratio {
    let u = (milli + 1000) * 12;
    let k = u / 1000;
    let f = u % 1000;
    Ratio {
        num: ((two_octaves(k) * (1000 - f) + two_octaves(k + 1) * f) / 1000) as u64,
        den: 131072,
    }
}

/// The pitch ratio of the semitone `k` of the two octaves.
fn two_octave_step(k: u32) -> (r: u64)
    requires
        k <= 25,
    ensures
        r == two_octaves(k as int),
        65536 <= r <= 262144,
{
    if k < 12 {
        semitone_step(k)
    } else if k < 24 {
        2 * semitone_step(k - 12)
    } else {
        262144
    }
}

/// The pitch ratio of `milli` thousandths of an octave; none below an octave
/// down or above an octave up.
pub fn ratio_of_octaves(milli: i32) -> (r: Option<Ratio>)
    ensures
        r is Some <==> -1000 <= milli <= 1000,
        r matches Some(q) ==> q == octave_ratio(milli as int) && q.wf(),
{
    if milli < -1000 || milli > 1000 {
        return None;
    }
    let u: u32 = ((milli + 1000) as u32) * 12;
    let k: u32 = u / 1000;
    let f: u64 = (u % 1000) as u64;
    let low: u64 = two_octave_step(k);
    let high: u64 = two_octave_step(k + 1);
    proof {
        assert(0 <= low * (1000 - f) <= 262144 * 1000) by (nonlinear_arith)
            requires
                0 <= low <= 262144,
                0 <= f < 1000,
        ;
        assert(0 <= high * f <= 262144 * 1000) by (nonlinear_arith)
            requires
                0 <= high <= 262144,
                0 <= f < 1000,
        ;
        let s = low * (1000 - f) + high * f;
        assert(65536 * 1000 <= s <= 262144 * 1000) by (nonlinear_arith)
            requires
                65536 <= low <= 262144,
                65536 <= high <= 262144,
                0 <= f < 1000,
                s == low * (1000 - f) + high * f,
        ;
    }
    let num: u64 = (low * (1000 - f) + high * f) / 1000;
    Some(Ratio { num, den: 131072 })
}

/// Three semitones are a quarter of an octave: at each quarter of an octave
/// the pitch in octaves stands for the same number as the pitch in
/// semitones. An octave up doubles the pitch, an octave down halves it, and
/// no change leaves it as it is.
pub proof fn lemma_octaves_meet_semitones()
    ensures
        octave_ratio(-1000).same(semitone_ratio(-12)),
        octave_ratio(-750).same(semitone_ratio(-9)),
        octave_ratio(-500).same(semitone_ratio(-6)),
        octave_ratio(-250).same(semitone_ratio(-3)),
        octave_ratio(0).same(semitone_ratio(0)),
        octave_ratio(250).same(semitone_ratio(3)),
        octave_ratio(500).same(semitone_ratio(6)),
        octave_ratio(750).same(semitone_ratio(9)),
        octave_ratio(1000).same(semitone_ratio(12)),
        octave_ratio(1000).num == 2 * octave_ratio(1000).den,
        octave_ratio(0).num == octave_ratio(0).den,
        2 * octave_ratio(-1000).num == octave_ratio(-1000).den,
{
    assert(octave_ratio(-1000).num == 65536) by {
        assert((-1000 + 1000) * 12 == 0);
        assert(0int / 1000 == 0 && 0int % 1000 == 0);
        assert(two_octaves(0) == 65536);
        assert(two_octaves(0) * 1000 + two_octaves(1) * 0 == 65536000) by (nonlinear_arith)
            requires
                two_octaves(0) == 65536,
        ;
        assert(65536000int / 1000 == 65536);
    }
    assert(semitone_ratio(-12).num == 65536);
    assert(65536int * 131072int == 65536int * 131072int) by (nonlinear_arith);
    assert(octave_ratio(-750).num == 77936) by {
        assert((-750 + 1000) * 12 == 3000);
        assert(3000int / 1000 == 3 && 3000int % 1000 == 0);
        assert(two_octaves(3) == 77936);
        assert(two_octaves(3) * 1000 + two_octaves(4) * 0 == 77936000) by (nonlinear_arith)
            requires
                two_octaves(3) == 77936,
        ;
        assert(77936000int / 1000 == 77936);
    }
    assert(semitone_ratio(-9).num == 77936);
    assert(77936int * 131072int == 77936int * 131072int) by (nonlinear_arith);
    assert(octave_ratio(-500).num == 92682) by {
        assert((-500 + 1000) * 12 == 6000);
        assert(6000int / 1000 == 6 && 6000int % 1000 == 0);
        assert(two_octaves(6) == 92682);
        assert(two_octaves(6) * 1000 + two_octaves(7) * 0 == 92682000) by (nonlinear_arith)
            requires
                two_octaves(6) == 92682,
        ;
        assert(92682000int / 1000 == 92682);
    }
    assert(semitone_ratio(-6).num == 92682);
    assert(92682int * 131072int == 92682int * 131072int) by (nonlinear_arith);
    assert(octave_ratio(-250).num == 110218) by {
        assert((-250 + 1000) * 12 == 9000);
        assert(9000int / 1000 == 9 && 9000int % 1000 == 0);
        assert(two_octaves(9) == 110218);
        assert(two_octaves(9) * 1000 + two_octaves(10) * 0 == 110218000) by (nonlinear_arith)
            requires
                two_octaves(9) == 110218,
        ;
        assert(110218000int / 1000 == 110218);
    }
    assert(semitone_ratio(-3).num == 110218);
    assert(110218int * 131072int == 110218int * 131072int) by (nonlinear_arith);
    assert(octave_ratio(0).num == 131072) by {
        assert((0 + 1000) * 12 == 12000);
        assert(12000int / 1000 == 12 && 12000int % 1000 == 0);
        assert(two_octaves(12) == 131072);
        assert(two_octaves(12) * 1000 + two_octaves(13) * 0 == 131072000) by (nonlinear_arith)
            requires
                two_octaves(12) == 131072,
        ;
        assert(131072000int / 1000 == 131072);
    }
    assert(semitone_ratio(0).num == 65536);
    assert(131072int * 65536int == 65536int * 131072int) by (nonlinear_arith);
    assert(octave_ratio(250).num == 155872) by {
        assert((250 + 1000) * 12 == 15000);
        assert(15000int / 1000 == 15 && 15000int % 1000 == 0);
        assert(two_octaves(15) == 155872);
        assert(two_octaves(15) * 1000 + two_octaves(16) * 0 == 155872000) by (nonlinear_arith)
            requires
                two_octaves(15) == 155872,
        ;
        assert(155872000int / 1000 == 155872);
    }
    assert(semitone_ratio(3).num == 77936);
    assert(155872int * 65536int == 77936int * 131072int) by (nonlinear_arith);
    assert(octave_ratio(500).num == 185364) by {
        assert((500 + 1000) * 12 == 18000);
        assert(18000int / 1000 == 18 && 18000int % 1000 == 0);
        assert(two_octaves(18) == 185364);
        assert(two_octaves(18) * 1000 + two_octaves(19) * 0 == 185364000) by (nonlinear_arith)
            requires
                two_octaves(18) == 185364,
        ;
        assert(185364000int / 1000 == 185364);
    }
    assert(semitone_ratio(6).num == 92682);
    assert(185364int * 65536int == 92682int * 131072int) by (nonlinear_arith);
    assert(octave_ratio(750).num == 220436) by {
        assert((750 + 1000) * 12 == 21000);
        assert(21000int / 1000 == 21 && 21000int % 1000 == 0);
        assert(two_octaves(21) == 220436);
        assert(two_octaves(21) * 1000 + two_octaves(22) * 0 == 220436000) by (nonlinear_arith)
            requires
                two_octaves(21) == 220436,
        ;
        assert(220436000int / 1000 == 220436);
    }
    assert(semitone_ratio(9).num == 110218);
    assert(220436int * 65536int == 110218int * 131072int) by (nonlinear_arith);
    assert(octave_ratio(1000).num == 262144) by {
        assert((1000 + 1000) * 12 == 24000);
        assert(24000int / 1000 == 24 && 24000int % 1000 == 0);
        assert(two_octaves(24) == 262144);
        assert(two_octaves(24) * 1000 + two_octaves(25) * 0 == 262144000) by (nonlinear_arith)
            requires
                two_octaves(24) == 262144,
        ;
        assert(262144000int / 1000 == 262144);
    }
    assert(semitone_ratio(12).num == 131072);
    assert(262144int * 65536int == 131072int * 131072int) by (nonlinear_arith);
}

} // verus!
