//! Univariate polynomials over the scalar field and radix-2 evaluation
//! domains.
//!
//! A [`Poly`] is a coefficient vector (lowest degree first); its meaning is
//! the function `x ↦ Σ cᵢ·xⁱ (mod p)` given by [`poly_eval`].  The contracts
//! of the polynomial operations speak of that function, so they do not depend
//! on whether leading zero coefficients are kept.
//!
//! A [`Domain`] of size `n` is the multiplicative subgroup generated by the
//! generator that `ark_poly` picks for radix-2 domains of that size; element
//! `i` is `gⁱ`.
use vstd::prelude::*;
use crate::field::{fadd, finv, fmul, fpow, fsub, modulus, Scalar};
use ark_bls12_381::Fr;
use ark_ff::{BigInteger256, PrimeField, Zero};
use ark_poly::univariate::{DenseOrSparsePolynomial, DensePolynomial};
use ark_poly::{EvaluationDomain, Evaluations, GeneralEvaluationDomain, Polynomial, UVPolynomial};

verus! {

/// The values of a sequence of scalars.
pub open spec fn vals(s: Seq<Scalar>) -> Seq<int> {
    s.map_values(|x: Scalar| x.val())
}

/// Every scalar of the sequence is canonical.
pub open spec fn all_wf(s: Seq<Scalar>) -> bool {
    forall|i: int| 0 <= i < s.len() ==> (#[trigger] s[i]).wf()
}

/// The value at `x` of the polynomial with coefficients `c` (lowest first).
pub open spec fn poly_eval(c: Seq<int>, x: int) -> int
    decreases c.len(),
{
    if c.len() == 0 {
        0
    } else {
        (c[0] + x * poly_eval(c.drop_first(), x)) % modulus()
    }
}

/// The first `n` coefficients (all of them if there are fewer).
pub open spec fn truncated(c: Seq<int>, n: nat) -> Seq<int> {
    if c.len() <= n {
        c
    } else {
        c.subrange(0, n as int)
    }
}

/// `n` is a power of two.
pub open spec fn is_pow2(n: nat) -> bool
    decreases n,
{
    if n == 1 {
        true
    } else if n == 0 || n % 2 == 1 {
        false
    } else {
        is_pow2(n / 2)
    }
}

/// The sizes of radix-2 domains of the scalar field: powers of two up to
/// `2^32` (the field's two-adicity).
pub open spec fn valid_domain_size(n: nat) -> bool {
    is_pow2(n) && n <= 0x1_0000_0000
}

/// The field's `2^32`-th root of unity `FftParameters::TWO_ADIC_ROOT_OF_UNITY`
/// (`GENERATOR^t` for `p − 1 = 2^32·t`), as an integer.
pub open spec fn two_adic_root() -> int {
    10238227357739495823651030575849232062558860180284477541189508159991286009131int
}

/// The generator that `ark_poly` picks for the radix-2 domain of size `size`
/// (`FftField::get_root_of_unity`): the `2^32`-th root squared
/// `32 − log₂ size` times, that is raised to `2^32 / size`.
#[verifier::opaque]
pub open spec fn domain_generator(size: nat) -> int {
    fpow(two_adic_root(), 0x1_0000_0000nat / size)
}

/// Element `i` of the domain of size `size`.
pub open spec fn domain_point(size: nat, i: nat) -> int {
    fpow(domain_generator(size), i)
}


/// The coset offset `g` of `ark_poly`'s coset FFT: the field's multiplicative
/// generator `FpParameters::GENERATOR`, which is 7 for the scalar field of
/// BLS12-381.
pub open spec fn coset_offset() -> int {
    7
}

/// Point `i` of the coset `g·D` of the domain `D` of size `size` on which
/// `ark_poly`'s coset FFT evaluates: `g` times element `i` of `D`.
pub open spec fn coset_point(size: nat, i: nat) -> int {
    fmul(coset_offset(), domain_point(size, i))
}

/// `2^k`.
pub open spec fn two_pow(k: nat) -> nat
    decreases k,
{
    if k == 0 {
        1
    } else {
        2 * two_pow((k - 1) as nat)
    }
}

/// `b^(2^k)` modulo `p`, by `k` squarings of `b`.
pub open spec fn square_power(b: int, k: nat) -> int
    decreases k,
{
    if k == 0 {
        b % modulus()
    } else {
        let s = square_power(b, (k - 1) as nat);
        (s * s) % modulus()
    }
}

/// The squarings are the powers: `b^(2^k) = square_power(b, k)`.
proof fn lemma_square_power(b: int, k: nat)
    ensures
        fpow(b, two_pow(k)) == square_power(b, k),
    decreases k,
{
    if k == 0 {
        vstd::arithmetic::power::lemma_pow1(b);
    } else {
        let a = two_pow((k - 1) as nat);
        lemma_square_power(b, (k - 1) as nat);
        crate::field::lemma_fpow_adds(b, a, a);
        reveal(fmul);
    }
}

/// `ω^(2^31) = −1` and `ω^(2^32) = 1` for the `2^32`-th root `ω`.
proof fn lemma_two_adic_root_order()
    ensures
        fpow(two_adic_root(), 0x8000_0000) == modulus() - 1,
        fpow(two_adic_root(), 0x1_0000_0000) == 1,
{
    vstd::arithmetic::div_mod::lemma_small_mod(two_adic_root() as nat, modulus() as nat);
    assert(square_power(two_adic_root(), 0) == 10238227357739495823651030575849232062558860180284477541189508159991286009131int);
    assert(square_power(two_adic_root(), 1) == 34070893824967080313820779135880760772780807222436853681508667398599787661631int);
    assert(square_power(two_adic_root(), 2) == 20094891866007995289136270587723853997043774683345353712639419774914899074390int);
    assert(square_power(two_adic_root(), 3) == 5660829372603820951332104046316074966592589311213397907344198301300676239643int);
    assert(square_power(two_adic_root(), 4) == 37480612446576615530266821837655054090426372233228960378061628060638903214217int);
    assert(square_power(two_adic_root(), 5) == 15932505959375582308231798849995567447410469395474322018100309999481287547373int);
    assert(square_power(two_adic_root(), 6) == 4541622677469846713471916119560591929733417256448031920623614406126544048514int);
    assert(square_power(two_adic_root(), 7) == 734830308204920577628633053915970695663549910788964686411700880930222744862int);
    assert(square_power(two_adic_root(), 8) == 18596002123094854211120822350746157678791770803088570110573239418060655130524int);
    assert(square_power(two_adic_root(), 9) == 52167942466760591552294394977846462646742207006759917080697723404762651336366int);
    assert(square_power(two_adic_root(), 10) == 4859563557044021881916617240989566298388494151979623102977292742331120628579int);
    assert(square_power(two_adic_root(), 11) == 32468834368094611004052562760214251466632493208153926274007662173556188291130int);
    assert(square_power(two_adic_root(), 12) == 1755840822790712607783180844474754741366353396308200820563736496551326485835int);
    assert(square_power(two_adic_root(), 13) == 37115000097562964541269718788523040559386243094666416358585267518228781043101int);
    assert(square_power(two_adic_root(), 14) == 20439484849038267462774237595151440867617792718791690563928621375157525968123int);
    assert(square_power(two_adic_root(), 15) == 15495926509001846844474268026226183818445427694968626800913907911890390421264int);
    assert(square_power(two_adic_root(), 16) == 15076889834420168339092859836519192632846122361203618639585008852351569017005int);
    assert(square_power(two_adic_root(), 17) == 22872204467218851938836547481240843888453165451755431061227190987689039608686int);
    assert(square_power(two_adic_root(), 18) == 39072540533732477250409069030641316533649120504872707460480262653418090977761int);
    assert(square_power(two_adic_root(), 19) == 32731401973776920074999878620293785439674386180695720638377027142500196583783int);
    assert(square_power(two_adic_root(), 20) == 39033254847818212395286706435128746857159659164139250548781411570340225835782int);
    assert(square_power(two_adic_root(), 21) == 49307615728544765012166121802278658070711169839041683575071795236746050763237int);
    assert(square_power(two_adic_root(), 22) == 22781213702924172180523978385542388841346373992886390990881355510284839737428int);
    assert(square_power(two_adic_root(), 23) == 4214636447306890335450803789410475782380792963881561516561680164772024173390int);
    assert(square_power(two_adic_root(), 24) == 36007022166693598376559747923784822035233416720563672082740011604939309541707int);
    assert(square_power(two_adic_root(), 25) == 47309214877430199588914062438791732591241783999377560080318349803002842391998int);
    assert(square_power(two_adic_root(), 26) == 31519469946562159605140591558550197856588417350474800936898404023113662197331int);
    assert(square_power(two_adic_root(), 27) == 36581797046584068049060372878520385032448812009597153775348195406694427778894int);
    assert(square_power(two_adic_root(), 28) == 14788168760825820622209131888203028446852016562542525606630160374691593895118int);
    assert(square_power(two_adic_root(), 29) == 23674694431658770659612952115660802947967373701506253797663184111817857449850int);
    assert(square_power(two_adic_root(), 30) == 3465144826073652318776269530687742778270252468765361963008int);
    assert(square_power(two_adic_root(), 31) == 52435875175126190479447740508185965837690552500527637822603658699938581184512int);
    assert(square_power(two_adic_root(), 32) == 1int);
    reveal_with_fuel(two_pow, 33);
    assert(two_pow(31) == 0x8000_0000);
    assert(two_pow(32) == 0x1_0000_0000);
    lemma_square_power(two_adic_root(), 31);
    lemma_square_power(two_adic_root(), 32);
}

/// `2^(k+j) = 2^k·2^j`.
proof fn lemma_two_pow_adds(k: nat, j: nat)
    ensures
        two_pow(k + j) == two_pow(k) * two_pow(j),
    decreases j,
{
    let a = two_pow(k);
    if j > 0 {
        lemma_two_pow_adds(k, (j - 1) as nat);
        assert(((k + j) - 1) as nat == k + (j - 1) as nat);
        let b = two_pow((j - 1) as nat);
        assert(two_pow(k + j) == 2 * two_pow(k + (j - 1) as nat));
        assert(two_pow(j) == 2 * b);
        assert(2 * (a * b) == a * (2 * b)) by (nonlinear_arith);
    } else {
        assert(k + j == k);
        assert(a * 1 == a);
    }
}

/// A valid domain size divides `2^32`.
proof fn lemma_domain_size_divides(size: nat) -> (a: nat)
    requires
        valid_domain_size(size),
    ensures
        size * a == 0x1_0000_0000,
        a >= 1,
{
    reveal_with_fuel(two_pow, 33);
    assert(two_pow(32) == 0x1_0000_0000);
    let k = lemma_two_pow_log(size, 32);
    lemma_two_pow_adds(k, (32 - k) as nat);
    assert(k + (32 - k) as nat == 32);
    let a = two_pow((32 - k) as nat);
    assert(a >= 1) by {
        lemma_two_pow_positive((32 - k) as nat);
    }
    a
}

proof fn lemma_two_pow_positive(k: nat)
    ensures
        two_pow(k) >= 1,
    decreases k,
{
    if k > 0 {
        lemma_two_pow_positive((k - 1) as nat);
    }
}

/// The facts about the domain of size `size` that its generator gives:
/// every element is a `size`-th root of unity; for `i` dividing `size`,
/// `gⁱ` is the generator of the domain of size `size/i`; and for `size ≥ 2`,
/// `g^{size/2} = −1`.
pub proof fn lemma_domain_facts(size: nat, i: nat)
    requires
        valid_domain_size(size),
    ensures
        fpow(domain_point(size, i), size) == 1,
        1 <= i && size % i == 0 ==> domain_point(size, i) == domain_point(size / i, 1),
        size >= 2 ==> fpow(domain_point(size, 1), size / 2) == modulus() - 1,
{
    reveal(domain_generator);
    let root = two_adic_root();
    let big = 0x1_0000_0000nat;
    let a = lemma_domain_size_divides(size);
    vstd::arithmetic::div_mod::lemma_div_multiples_vanish(a as int, size as int);
    assert(big / size == a);
    let g = domain_generator(size);
    assert(g == fpow(root, a));
    lemma_two_adic_root_order();
    // (a) (g^i)^size = root^{2^32·i} = 1
    crate::field::lemma_fpow_multiplies(root, a, i);
    crate::field::lemma_fpow_multiplies(root, a * i, size);
    assert((a * i) * size == big * i) by (nonlinear_arith)
        requires
            size * a == big,
    ;
    crate::field::lemma_fpow_multiplies(root, big, i);
    vstd::arithmetic::power::lemma_pow1(1);
    lemma_one_powers(i);
    // (b)
    if 1 <= i && size % i == 0 {
        vstd::arithmetic::div_mod::lemma_fundamental_div_mod(size as int, i as int);
        let c = size / i;
        assert(c >= 1) by (nonlinear_arith)
            requires
                size == i * c,
                size >= 1,
                i >= 1,
        ;
        assert(big == c * (i * a)) by (nonlinear_arith)
            requires
                size * a == big,
                size == i * c,
        ;
        vstd::arithmetic::div_mod::lemma_div_multiples_vanish((i * a) as int, c as int);
        assert(big / c == i * a);
        crate::field::lemma_fpow_multiplies(root, i * a, 1);
        vstd::arithmetic::mul::lemma_mul_is_commutative(a as int, i as int);
    }
    // (c)
    if size >= 2 {
        assert(size % 2 == 0);
        crate::field::lemma_fpow_multiplies(root, a, 1);
        crate::field::lemma_fpow_multiplies(root, a * 1, size / 2);
        assert(a * (size / 2) == 0x8000_0000) by (nonlinear_arith)
            requires
                size * a == big,
                size % 2 == 0,
                big == 0x1_0000_0000,
        ;
    }
}

/// `1^i = 1` in the field.
proof fn lemma_one_powers(i: nat)
    ensures
        fpow(1, i) == 1,
    decreases i,
{
    if i == 0 {
        vstd::arithmetic::power::lemma_pow0(1);
    } else {
        lemma_one_powers((i - 1) as nat);
        crate::field::lemma_fpow_step(1, (i - 1) as nat);
        crate::field::lemma_fmul_one(1);
    }
    vstd::arithmetic::div_mod::lemma_small_mod(1, modulus() as nat);
}

/// For `k ≤ 31`, `g^(2^k)` is neither 1 nor −1.
proof fn lemma_offset_square_power_values(k: nat)
    requires
        k <= 31,
    ensures
        square_power(coset_offset(), k) != 0,
        square_power(coset_offset(), k) != 1,
        square_power(coset_offset(), k) != modulus() - 1,
{
    vstd::arithmetic::div_mod::lemma_small_mod(7, modulus() as nat);
    assert(square_power(coset_offset(), 0) == 7int);
    assert(square_power(coset_offset(), 1) == 49int);
    assert(square_power(coset_offset(), 2) == 2401int);
    assert(square_power(coset_offset(), 3) == 5764801int);
    assert(square_power(coset_offset(), 4) == 33232930569601int);
    assert(square_power(coset_offset(), 5) == 1104427674243920646305299201int);
    assert(square_power(coset_offset(), 6) == 1219760487635835700138573862562971820755615294131238401int);
    assert(square_power(coset_offset(), 7) == 28675123552705270628424486287815997569068313446782523439320916514766803859301int);
    assert(square_power(coset_offset(), 8) == 2105266710438460510335584620735748957031592497628193760933367748953176313453int);
    assert(square_power(coset_offset(), 9) == 34881747306914900137344591563600029366000477729476687627918756449612985712857int);
    assert(square_power(coset_offset(), 10) == 31436051378302673029273472463863915906926382763710106172270466860223546799877int);
    assert(square_power(coset_offset(), 11) == 4248848083197493813776090311667560507828636340278881372282335383511678723284int);
    assert(square_power(coset_offset(), 12) == 37189883987935609358827315048978935232303196793349982437796642863156983607667int);
    assert(square_power(coset_offset(), 13) == 33634957497581058462876496544492689517698192528710430647586205774018225807069int);
    assert(square_power(coset_offset(), 14) == 19284738547097072801643196689857553390527674565967087920453798189703846016574int);
    assert(square_power(coset_offset(), 15) == 47049055021872071257775922023398808741640158329845627147598436951931663916078int);
    assert(square_power(coset_offset(), 16) == 6718187652060118154878991745143222538323646667128198963877451859431710724943int);
    assert(square_power(coset_offset(), 17) == 22089156137241826677078646197881379037144385839891156183020495786757805517677int);
    assert(square_power(coset_offset(), 18) == 28363060994872825639943768122805767684920777072881571656655784403359326665178int);
    assert(square_power(coset_offset(), 19) == 5503028070484348714942096738416053314985046483370456136319100994603649984338int);
    assert(square_power(coset_offset(), 20) == 44580653893003952626002625081325463622826960835280297872176106820627572892892int);
    assert(square_power(coset_offset(), 21) == 11855155637572493763249153043615528589804302674914486698268742272542556290579int);
    assert(square_power(coset_offset(), 22) == 51582941294894592575687238970218624324454705418455652813690416499960328389521int);
    assert(square_power(coset_offset(), 23) == 39894222336603212565226889532583267851974052842094346059943016651726437307443int);
    assert(square_power(coset_offset(), 24) == 30111311273997722384870578106382841012128977324593344500133647453364179653526int);
    assert(square_power(coset_offset(), 25) == 51837217513153124197662294415014285506887144567837836564361845314150247032023int);
    assert(square_power(coset_offset(), 26) == 19847285074254561841597764316897343331645835547381627985238813845568422026200int);
    assert(square_power(coset_offset(), 27) == 19266941795265119528980094586930279494399117446700983472308632786470842364243int);
    assert(square_power(coset_offset(), 28) == 47322165478023450553764335389857279145827982362106833992504959209011915288318int);
    assert(square_power(coset_offset(), 29) == 45298623529600677370686846268888213192107402400222516670752111723117005884742int);
    assert(square_power(coset_offset(), 30) == 17734919456181544182922340728807960274892878428995710465828814863351633434222int);
    assert(square_power(coset_offset(), 31) == 32057921650975625354726385963153119689993979282682231668508191228140784177368int);
    if k == 0 {} else if k == 1 {} else if k == 2 {} else if k == 3 {} else if k == 4 {}
    else if k == 5 {} else if k == 6 {} else if k == 7 {} else if k == 8 {} else if k == 9 {}
    else if k == 10 {} else if k == 11 {} else if k == 12 {} else if k == 13 {}
    else if k == 14 {} else if k == 15 {} else if k == 16 {} else if k == 17 {}
    else if k == 18 {} else if k == 19 {} else if k == 20 {} else if k == 21 {}
    else if k == 22 {} else if k == 23 {} else if k == 24 {} else if k == 25 {}
    else if k == 26 {} else if k == 27 {} else if k == 28 {} else if k == 29 {}
    else if k == 30 {} else {}
}

/// A power of two `m ≤ 2^b` is `2^k` for some `k ≤ b`.
proof fn lemma_two_pow_log(m: nat, b: nat) -> (k: nat)
    requires
        is_pow2(m),
        m <= two_pow(b),
    ensures
        two_pow(k) == m,
        k <= b,
    decreases m,
{
    if m == 1 {
        0
    } else {
        assert(m % 2 == 0 && is_pow2(m / 2));
        assert(b >= 1);
        let k0 = lemma_two_pow_log(m / 2, (b - 1) as nat);
        k0 + 1
    }
}

/// For a power of two `m ≤ 2^31`, `g^m` is neither 1 nor −1: the offset's
/// order exceeds `2^32`.
pub proof fn lemma_offset_power_not_pm1(m: nat)
    requires
        is_pow2(m),
        m <= 0x8000_0000,
    ensures
        fpow(coset_offset(), m) != 0,
        fpow(coset_offset(), m) != 1,
        fpow(coset_offset(), m) != modulus() - 1,
{
    reveal_with_fuel(two_pow, 32);
    assert(two_pow(31) == 0x8000_0000);
    let k = lemma_two_pow_log(m, 31);
    lemma_square_power(coset_offset(), k);
    lemma_offset_square_power_values(k);
}

/// `(a·b)^e = a^e·b^e` in the field.
pub(crate) proof fn lemma_fpow_of_product(a: int, b: int, e: nat)
    ensures
        fpow(fmul(a, b), e) == fmul(fpow(a, e), fpow(b, e)),
{
    reveal(fmul);
    let p = modulus();
    crate::field::lemma_fpow_mod(a * b, e);
    vstd::arithmetic::power::lemma_pow_distributes(a, b, e);
    vstd::arithmetic::div_mod::lemma_mul_mod_noop(
        vstd::arithmetic::power::pow(a, e),
        vstd::arithmetic::power::pow(b, e),
        p,
    );
}

/// The powers of −1 are 1 and −1.
proof fn lemma_minus_one_powers(i: nat)
    ensures
        fpow(modulus() - 1, i) == 1 || fpow(modulus() - 1, i) == modulus() - 1,
    decreases i,
{
    let p = modulus();
    if i == 0 {
        vstd::arithmetic::power::lemma_pow0(p - 1);
        vstd::arithmetic::div_mod::lemma_small_mod(1, p as nat);
    } else {
        lemma_minus_one_powers((i - 1) as nat);
        crate::field::lemma_fpow_step(p - 1, (i - 1) as nat);
        crate::identities::lemma_minus_one_squared();
        crate::field::lemma_fmul_one(p - 1);
    }
}

/// The coset `g·D` on which the coset FFT evaluates avoids the subgroup of
/// size `size/2`: at each of its points `x`, `x^{size/2} − 1 ≠ 0`.
pub proof fn lemma_coset_avoids_half_subgroup(size: nat, i: nat)
    requires
        valid_domain_size(size),
        size >= 2,
    ensures
        fsub(fpow(coset_point(size, i), size / 2), 1) != 0,
{
    lemma_domain_facts(size, 1);
    let p = modulus();
    let m = size / 2;
    let g = domain_generator(size);
    let w = domain_point(size, i);
    assert(size % 2 == 0 && is_pow2(m));
    lemma_fpow_of_product(coset_offset(), w, m);
    // w^m = (g^m)^i = (−1)^i
    crate::field::lemma_fpow_multiplies(g, i, m);
    crate::field::lemma_fpow_multiplies(g, m, i);
    crate::field::lemma_fpow_multiplies(g, 1, m);
    vstd::arithmetic::mul::lemma_mul_is_commutative(i as int, m as int);
    lemma_minus_one_powers(i);
    lemma_offset_power_not_pm1(m);
    let s = fpow(coset_offset(), m);
    let v = fpow(coset_point(size, i), m);
    vstd::arithmetic::div_mod::lemma_mod_bound(vstd::arithmetic::power::pow(7, m), p);
    assert(0 <= s < p);
    if fpow(w, m) == 1 {
        crate::field::lemma_fmul_one(s);
        assert(v == s);
    } else {
        reveal(fmul);
        assert(s * (p - 1) == p * (s - 1) + (p - s)) by (nonlinear_arith);
        vstd::arithmetic::div_mod::lemma_mod_multiples_vanish(s - 1, p - s, p);
        vstd::arithmetic::div_mod::lemma_small_mod((p - s) as nat, p as nat);
        assert(v == p - s);
    }
    assert(0 <= v < p && v != 1);
    reveal(fsub);
    if (v - 1) % p == 0 {
        vstd::arithmetic::div_mod::lemma_fundamental_div_mod(v - 1, p);
        let q = (v - 1) / p;
        assert(q == 0) by (nonlinear_arith)
            requires
                v - 1 == p * q,
                -1 <= v - 1 < p,
                p > 1,
        ;
    }
}

/// A polynomial, as its coefficients (lowest degree first).
#[derive(Clone, Debug)]
pub struct Poly {
    pub coeffs: Vec<Scalar>,
}

impl Poly {
    /// The values of the coefficients.
    pub open spec fn cv(&self) -> Seq<int> {
        vals(self.coeffs@)
    }

    /// All coefficients are canonical.
    pub open spec fn wf(&self) -> bool {
        all_wf(self.coeffs@)
    }

    /// The value of the polynomial at `x`.
    pub open spec fn eval(&self, x: int) -> int {
        poly_eval(self.cv(), x)
    }

    /// The number of coefficients.
    pub open spec fn len(&self) -> nat {
        self.coeffs@.len()
    }

    /// The polynomial with the given coefficients.
    pub fn from_coefficients_vec(coeffs: Vec<Scalar>) -> (r: Poly)
        ensures
            r.coeffs@ == coeffs@,
    {
        Poly { coeffs }
    }

    /// A copy of the polynomial.
    pub fn duplicate(&self) -> (r: Poly)
        ensures
            r.coeffs@ == self.coeffs@,
    {
        let c = self.coeffs.clone();
        assert(c@ =~= self.coeffs@);
        Poly { coeffs: c }
    }

    /// The zero polynomial.
    pub fn zero() -> (r: Poly)
        ensures
            r.wf(),
            r.len() == 0,
            forall|x: int| #[trigger] r.eval(x) == 0,
    {
        Poly { coeffs: Vec::new() }
    }

    /// The constant polynomial `v`.
    pub fn constant(v: Scalar) -> (r: Poly)
        requires
            v.wf(),
        ensures
            r.wf(),
            r.len() == 1,
            forall|x: int| #[trigger] r.eval(x) == v.val(),
    {
        let mut c: Vec<Scalar> = Vec::new();
        c.push(v);
        let r = Poly { coeffs: c };
        assert forall|x: int| #[trigger] r.eval(x) == v.val() by {
            assert(r.cv().len() == 1);
            assert(r.cv()[0] == v.val());
            assert(r.cv().drop_first().len() == 0);
            assert(poly_eval(r.cv().drop_first(), x) == 0);
            assert(x * 0 == 0);
            vstd::arithmetic::div_mod::lemma_small_mod(v.val() as nat, modulus() as nat);
        }
        r
    }

    /// The degree: the index of the last non-zero coefficient (0 for the zero
    /// polynomial).
    pub fn degree(&self) -> (r: usize)
        ensures
            r == 0 || r < self.len(),
            forall|j: int| r < j < self.len() ==> #[trigger] self.coeffs@[j].val() == 0,
            r > 0 ==> self.coeffs@[r as int].val() != 0,
    {
        let mut i = self.coeffs.len();
        while i > 0
            invariant
                i <= self.coeffs.len(),
                forall|j: int| i <= j < self.len() ==> #[trigger] self.coeffs@[j].val() == 0,
            decreases i,
        {
            if !self.coeffs[i - 1].is_zero() {
                return i - 1;
            }
            i = i - 1;
        }
        0
    }

    /// The value of the polynomial at `x`.
    pub fn evaluate(&self, x: &Scalar) -> (r: Scalar)
        requires
            self.wf(),
            x.wf(),
        ensures
            r.wf(),
            r.val() == self.eval(x.val()),
    {
        poly_evaluate(self, *x)
    }

    /// `self + other`.
    pub fn add(&self, other: &Poly) -> (r: Poly)
        requires
            self.wf(),
            other.wf(),
        ensures
            r.wf(),
            r.len() <= self.len() || r.len() <= other.len(),
            forall|x: int| #[trigger] r.eval(x) == fadd(self.eval(x), other.eval(x)),
    {
        poly_add(self, other)
    }

    /// `self - other`.
    pub fn sub(&self, other: &Poly) -> (r: Poly)
        requires
            self.wf(),
            other.wf(),
        ensures
            r.wf(),
            r.len() <= self.len() || r.len() <= other.len(),
            forall|x: int| #[trigger] r.eval(x) == fsub(self.eval(x), other.eval(x)),
    {
        poly_sub(self, other)
    }

    /// `self * other`.
    pub fn mul(&self, other: &Poly) -> (r: Poly)
        requires
            self.wf(),
            other.wf(),
            self.len() + other.len() <= 0x1_0000_0000,
        ensures
            r.wf(),
            r.len() == 0 || r.len() + 1 <= self.len() + other.len(),
            forall|x: int| #[trigger] r.eval(x) == fmul(self.eval(x), other.eval(x)),
    {
        poly_mul(self, other)
    }

    /// `s * self`.
    pub fn scale(&self, s: &Scalar) -> (r: Poly)
        requires
            self.wf(),
            s.wf(),
        ensures
            r.wf(),
            r.len() <= self.len(),
            forall|x: int| #[trigger] r.eval(x) == fmul(s.val(), self.eval(x)),
    {
        poly_scale(*s, self)
    }

    /// Division with remainder by the vanishing polynomial `X^size − 1` of the
    /// domain: `self = q·(X^size − 1) + r` with fewer than `size + 1`
    /// coefficients in `r`.
    pub fn divide_by_vanishing_poly(&self, domain: &Domain) -> (qr: (Poly, Poly))
        requires
            self.wf(),
            domain.wf(),
        ensures
            qr.0.wf(),
            qr.1.wf(),
            qr.1.len() <= domain.size,
            forall|x: int|
                #[trigger] self.eval(x) == fadd(
                    fmul(qr.0.eval(x), fsub(fpow(x, domain.size as nat), 1)),
                    qr.1.eval(x),
                ),
    {
        poly_divide_by_vanishing(self, domain.size)
    }

    /// Division with remainder by `X − a`: `self = q·(X − a) + r` with `r`
    /// constant.
    pub fn divide_by_linear(&self, a: &Scalar) -> (qr: (Poly, Poly))
        requires
            self.wf(),
            a.wf(),
        ensures
            qr.0.wf(),
            qr.1.wf(),
            qr.1.len() <= 1,
            qr.0.len() + 1 <= self.len() || qr.0.len() == 0,
            forall|x: int|
                #[trigger] self.eval(x) == fadd(fmul(qr.0.eval(x), fsub(x, a.val())), qr.1.eval(x)),
    {
        poly_divide_by_linear(self, *a)
    }
}

/// A radix-2 evaluation domain, given by its size.
#[derive(Clone, Copy, Debug, PartialEq, Eq)]
pub struct Domain {
    pub size: usize,
}

impl Domain {
    /// The size is a valid radix-2 domain size.
    pub open spec fn wf(&self) -> bool {
        valid_domain_size(self.size as nat)
    }

    /// Element `i` of the domain: `gⁱ` for the domain's generator `g`.
    pub open spec fn point(&self, i: int) -> int {
        domain_point(self.size as nat, i as nat)
    }

    /// The number of elements.
    pub fn size(&self) -> (r: usize)
        ensures
            r == self.size,
    {
        self.size
    }

    /// Element `i` of the domain: a `size`-th root of unity; for `i`
    /// dividing `size`, the generator of the domain of size `size/i`; and for
    /// `i = 1` (`size ≥ 2`) an element whose `size/2`-th power is −1.
    pub fn element(&self, i: usize) -> (r: Scalar)
        requires
            self.wf(),
        ensures
            r.wf(),
            r.val() == self.point(i as int),
            fpow(r.val(), self.size as nat) == 1,
            1 <= i && self.size % i == 0 ==> r.val() == domain_point(
                (self.size / i) as nat,
                1,
            ),
            i == 1 && self.size >= 2 ==> fpow(r.val(), (self.size / 2) as nat) == modulus() - 1,
    {
        proof {
            lemma_domain_facts(self.size as nat, i as nat);
        }
        domain_element(self.size, i)
    }

    /// The vanishing polynomial `X^size − 1` of the domain.
    pub fn vanishing_polynomial(&self) -> (r: Poly)
        requires
            self.wf(),
        ensures
            r.wf(),
            r.len() == self.size + 1,
            forall|x: int| #[trigger] r.eval(x) == fsub(fpow(x, self.size as nat), 1),
            forall|i: int| 0 <= i < self.size ==> #[trigger] r.eval(self.point(i)) == 0,
    {
        domain_vanishing_polynomial(self.size)
    }

    /// The polynomial with fewer than `size + 1` coefficients that takes the
    /// value `evals[i]` at element `i`.
    pub fn interpolate(&self, evals: &Vec<Scalar>) -> (r: Poly)
        requires
            self.wf(),
            evals.len() == self.size,
            all_wf(evals@),
        ensures
            r.wf(),
            r.len() <= self.size,
            forall|i: int| 0 <= i < self.size ==> #[trigger] r.eval(self.point(i)) == evals@[i].val(),
            r.cv() == interpolation(vals(evals@), self.size as nat),
    {
        poly_interpolate(evals, self.size)
    }

    /// The values of `p` (cut to its first `size` coefficients) at the
    /// elements of the domain.
    pub fn evaluate_over_domain(&self, p: &Poly) -> (r: Vec<Scalar>)
        requires
            self.wf(),
            p.wf(),
        ensures
            r.len() == self.size,
            all_wf(r@),
            forall|i: int|
                0 <= i < self.size ==> #[trigger] r@[i].val() == poly_eval(
                    truncated(p.cv(), self.size as nat),
                    self.point(i),
                ),
    {
        poly_evaluate_over_domain(p, self.size)
    }

    /// The values of `p` (cut to its first `size` coefficients) at the points
    /// of the domain's coset.
    pub fn coset_fft(&self, p: &Poly) -> (r: Vec<Scalar>)
        requires
            self.wf(),
            p.wf(),
        ensures
            r.len() == self.size,
            all_wf(r@),
            forall|i: int|
                0 <= i < self.size ==> #[trigger] r@[i].val() == poly_eval(
                    truncated(p.cv(), self.size as nat),
                    coset_point(self.size as nat, i as nat),
                ),
    {
        poly_coset_fft(p, self.size)
    }

    /// The polynomial with at most `size` coefficients that takes the value
    /// `evals[i]` at point `i` of the domain's coset.
    pub fn coset_ifft(&self, evals: &Vec<Scalar>) -> (r: Poly)
        requires
            self.wf(),
            evals.len() == self.size,
            all_wf(evals@),
        ensures
            r.wf(),
            r.len() <= self.size,
            forall|i: int|
                0 <= i < self.size ==> #[trigger] r.eval(coset_point(self.size as nat, i as nat))
                    == evals@[i].val(),
    {
        poly_coset_ifft(evals, self.size)
    }
}

/// `EvaluationDomain::element` of `GeneralEvaluationDomain::<Fr>::new(size)`:
/// the domain's generator raised to `i`.  For a power of two `size`, the
/// domain is radix-2 and its generator is `FftField::get_root_of_unity(size)`,
/// the field's `2^32`-th root of unity squared `32 − log₂ size` times
/// ([`domain_generator`]).
#[verifier::external_body]
fn domain_element(size: usize, i: usize) -> (r: Scalar)
    requires
        valid_domain_size(size as nat),
    ensures
        r.wf(),
        r.val() == fpow(domain_generator(size as nat), i as nat),
{
    let d = GeneralEvaluationDomain::<Fr>::new(size).unwrap();
    Scalar { limbs: d.element(i).into_repr().0 }
}

/// `vanishing_polynomial` of `GeneralEvaluationDomain::<Fr>::new(size)`,
/// as a dense polynomial: `X^size − 1`, which is 0 on every domain element.
#[verifier::external_body]
fn domain_vanishing_polynomial(size: usize) -> (r: Poly)
    requires
        valid_domain_size(size as nat),
    ensures
        r.wf(),
        r.len() == size + 1,
        forall|x: int| #[trigger] r.eval(x) == fsub(fpow(x, size as nat), 1),
        forall|i: int| 0 <= i < size ==> #[trigger] r.eval(domain_point(size as nat, i as nat)) == 0,
{
    let d = GeneralEvaluationDomain::<Fr>::new(size).unwrap();
    let z: DensePolynomial<Fr> = d.vanishing_polynomial().into();
    Poly { coeffs: z.coeffs.iter().map(|c| Scalar { limbs: c.into_repr().0 }).collect() }
}

/// `Σ_{i<k} e_i·g^{i·s}` in the field.
pub open spec fn dft_sum(e: Seq<int>, g: int, s: nat, k: nat) -> int
    decreases k,
{
    if k == 0 {
        0
    } else {
        fadd(dft_sum(e, g, s, (k - 1) as nat), fmul(e[k - 1], fpow(g, ((k - 1) * s) as nat)))
    }
}

/// `c` without its trailing (highest-degree) zero coefficients.
pub open spec fn trim_zeros(c: Seq<int>) -> Seq<int>
    decreases c.len(),
{
    if c.len() > 0 && c.last() == 0 {
        trim_zeros(c.drop_last())
    } else {
        c
    }
}

/// The coefficients that `Evaluations::interpolate` gives for the values
/// `evals` on the radix-2 domain of size `size`: the inverse FFT
/// `c_j = (1/size)·Σ_i evals_i·ω^{−i·j}` (with `ω^{−j} = ω^{size−j}`), without
/// trailing zero coefficients, which `DensePolynomial::from_coefficients_vec`
/// drops.
pub open spec fn interpolation(evals: Seq<int>, size: nat) -> Seq<int> {
    trim_zeros(
        Seq::new(
            size,
            |j: int|
                fmul(
                    finv(size as int),
                    dft_sum(evals, domain_generator(size), (size - j) as nat, size),
                ),
        ),
    )
}

/// `Evaluations::from_vec_and_domain(evals, domain).interpolate()`: the
/// polynomial of degree below `size` through the given values on the domain
/// (an inverse FFT, so a function of the values and the size).
#[verifier::external_body]
fn poly_interpolate(evals: &Vec<Scalar>, size: usize) -> (r: Poly)
    requires
        valid_domain_size(size as nat),
        evals.len() == size,
        all_wf(evals@),
    ensures
        r.wf(),
        r.cv() == interpolation(vals(evals@), size as nat),
        r.len() <= size,
        forall|i: int|
            0 <= i < size ==> #[trigger] r.eval(domain_point(size as nat, i as nat))
                == evals@[i].val(),
{
    let d = GeneralEvaluationDomain::<Fr>::new(size).unwrap();
    let e: Vec<Fr> = evals.iter().map(|s| Fr::from_repr(BigInteger256::new(s.limbs)).unwrap()).collect();
    let p = Evaluations::from_vec_and_domain(e, d).interpolate();
    Poly { coeffs: p.coeffs.iter().map(|c| Scalar { limbs: c.into_repr().0 }).collect() }
}

/// `Polynomial::evaluate` of a dense polynomial: `Σ cᵢ·xⁱ` modulo `p`.
#[verifier::external_body]
fn poly_evaluate(a: &Poly, x: Scalar) -> (r: Scalar)
    requires
        a.wf(),
        x.wf(),
    ensures
        r.wf(),
        r.val() == a.eval(x.val()),
{
    let p = DensePolynomial::from_coefficients_vec(a.coeffs.iter().map(|s| Fr::from_repr(BigInteger256::new(s.limbs)).unwrap()).collect());
    Scalar { limbs: p.evaluate(&Fr::from_repr(BigInteger256::new(x.limbs)).unwrap()).into_repr().0 }
}

/// `Add` of dense polynomials: the coefficient-wise sum, with leading zeros
/// dropped.
#[verifier::external_body]
fn poly_add(a: &Poly, b: &Poly) -> (r: Poly)
    requires
        a.wf(),
        b.wf(),
    ensures
        r.wf(),
        r.len() <= a.len() || r.len() <= b.len(),
        forall|x: int| #[trigger] r.eval(x) == fadd(a.eval(x), b.eval(x)),
{
    let p = DensePolynomial::from_coefficients_vec(a.coeffs.iter().map(|s| Fr::from_repr(BigInteger256::new(s.limbs)).unwrap()).collect());
    let q = DensePolynomial::from_coefficients_vec(b.coeffs.iter().map(|s| Fr::from_repr(BigInteger256::new(s.limbs)).unwrap()).collect());
    Poly { coeffs: (&p + &q).coeffs.iter().map(|c| Scalar { limbs: c.into_repr().0 }).collect() }
}

/// `Sub` of dense polynomials: the coefficient-wise difference, with leading
/// zeros dropped.
#[verifier::external_body]
fn poly_sub(a: &Poly, b: &Poly) -> (r: Poly)
    requires
        a.wf(),
        b.wf(),
    ensures
        r.wf(),
        r.len() <= a.len() || r.len() <= b.len(),
        forall|x: int| #[trigger] r.eval(x) == fsub(a.eval(x), b.eval(x)),
{
    let p = DensePolynomial::from_coefficients_vec(a.coeffs.iter().map(|s| Fr::from_repr(BigInteger256::new(s.limbs)).unwrap()).collect());
    let q = DensePolynomial::from_coefficients_vec(b.coeffs.iter().map(|s| Fr::from_repr(BigInteger256::new(s.limbs)).unwrap()).collect());
    Poly { coeffs: (&p - &q).coeffs.iter().map(|c| Scalar { limbs: c.into_repr().0 }).collect() }
}

/// `Mul` of dense polynomials (by FFT over a domain of at least
/// `a.len() + b.len()` points): the product polynomial.
#[verifier::external_body]
fn poly_mul(a: &Poly, b: &Poly) -> (r: Poly)
    requires
        a.wf(),
        b.wf(),
        a.len() + b.len() <= 0x1_0000_0000,
    ensures
        r.wf(),
        r.len() == 0 || r.len() + 1 <= a.len() + b.len(),
        forall|x: int| #[trigger] r.eval(x) == fmul(a.eval(x), b.eval(x)),
{
    let p = DensePolynomial::from_coefficients_vec(a.coeffs.iter().map(|s| Fr::from_repr(BigInteger256::new(s.limbs)).unwrap()).collect());
    let q = DensePolynomial::from_coefficients_vec(b.coeffs.iter().map(|s| Fr::from_repr(BigInteger256::new(s.limbs)).unwrap()).collect());
    Poly { coeffs: (&p * &q).coeffs.iter().map(|c| Scalar { limbs: c.into_repr().0 }).collect() }
}

/// `AddAssign<(F, &DensePolynomial)>` applied to the zero polynomial: every
/// coefficient of `a` times `s`.
#[verifier::external_body]
fn poly_scale(s: Scalar, a: &Poly) -> (r: Poly)
    requires
        a.wf(),
        s.wf(),
    ensures
        r.wf(),
        r.len() <= a.len(),
        forall|x: int| #[trigger] r.eval(x) == fmul(s.val(), a.eval(x)),
{
    let p = DensePolynomial::from_coefficients_vec(a.coeffs.iter().map(|c| Fr::from_repr(BigInteger256::new(c.limbs)).unwrap()).collect());
    let mut out = DensePolynomial::<Fr>::zero();
    out += (Fr::from_repr(BigInteger256::new(s.limbs)).unwrap(), &p);
    Poly { coeffs: out.coeffs.iter().map(|c| Scalar { limbs: c.into_repr().0 }).collect() }
}

/// `DensePolynomial::divide_by_vanishing_poly` over the domain of size
/// `size`: quotient and remainder of the division by `X^size − 1`.
#[verifier::external_body]
fn poly_divide_by_vanishing(a: &Poly, size: usize) -> (qr: (Poly, Poly))
    requires
        a.wf(),
        valid_domain_size(size as nat),
    ensures
        qr.0.wf(),
        qr.1.wf(),
        qr.1.len() <= size,
        forall|x: int|
            #[trigger] a.eval(x) == fadd(
                fmul(qr.0.eval(x), fsub(fpow(x, size as nat), 1)),
                qr.1.eval(x),
            ),
{
    let p = DensePolynomial::from_coefficients_vec(a.coeffs.iter().map(|s| Fr::from_repr(BigInteger256::new(s.limbs)).unwrap()).collect());
    let (q, r) = p.divide_by_vanishing_poly(GeneralEvaluationDomain::<Fr>::new(size).unwrap()).unwrap();
    (Poly { coeffs: q.coeffs.iter().map(|c| Scalar { limbs: c.into_repr().0 }).collect() },
     Poly { coeffs: r.coeffs.iter().map(|c| Scalar { limbs: c.into_repr().0 }).collect() })
}

/// `DenseOrSparsePolynomial::divide_with_q_and_r` by `X − a`: quotient and
/// constant remainder.
#[verifier::external_body]
fn poly_divide_by_linear(p: &Poly, a: Scalar) -> (qr: (Poly, Poly))
    requires
        p.wf(),
        a.wf(),
    ensures
        qr.0.wf(),
        qr.1.wf(),
        qr.1.len() <= 1,
        qr.0.len() + 1 <= p.len() || qr.0.len() == 0,
        forall|x: int| #[trigger] p.eval(x) == fadd(fmul(qr.0.eval(x), fsub(x, a.val())), qr.1.eval(x)),
{
    let n = DensePolynomial::from_coefficients_vec(p.coeffs.iter().map(|s| Fr::from_repr(BigInteger256::new(s.limbs)).unwrap()).collect());
    let neg_a = -Fr::from_repr(BigInteger256::new(a.limbs)).unwrap();
    let d = DensePolynomial::from_coefficients_vec(vec![neg_a, Fr::from(1u64)]);
    let (q, r) = DenseOrSparsePolynomial::from(n).divide_with_q_and_r(&DenseOrSparsePolynomial::from(d)).unwrap();
    (Poly { coeffs: q.coeffs.iter().map(|c| Scalar { limbs: c.into_repr().0 }).collect() },
     Poly { coeffs: r.coeffs.iter().map(|c| Scalar { limbs: c.into_repr().0 }).collect() })
}

/// `evaluate_over_domain_by_ref` over the domain of size `size` (an FFT of
/// the first `size` coefficients).
#[verifier::external_body]
fn poly_evaluate_over_domain(a: &Poly, size: usize) -> (r: Vec<Scalar>)
    requires
        a.wf(),
        valid_domain_size(size as nat),
    ensures
        r.len() == size,
        all_wf(r@),
        forall|i: int|
            0 <= i < size ==> #[trigger] r@[i].val() == poly_eval(
                truncated(a.cv(), size as nat),
                domain_point(size as nat, i as nat),
            ),
{
    let p = DensePolynomial::from_coefficients_vec(a.coeffs.iter().map(|s| Fr::from_repr(BigInteger256::new(s.limbs)).unwrap()).collect());
    let e = p.evaluate_over_domain_by_ref(GeneralEvaluationDomain::<Fr>::new(size).unwrap()).evals;
    e.iter().map(|c| Scalar { limbs: c.into_repr().0 }).collect()
}

/// `EvaluationDomain::coset_fft` of the domain of size `size`: the values of
/// the first `size` coefficients' polynomial on the coset `g·D`, `g` being
/// `FftField::multiplicative_generator()` (whose coefficient scaling
/// `distribute_powers` applies before the FFT), in the order of the domain's
/// elements.
#[verifier::external_body]
fn poly_coset_fft(a: &Poly, size: usize) -> (r: Vec<Scalar>)
    requires
        a.wf(),
        valid_domain_size(size as nat),
    ensures
        r.len() == size,
        all_wf(r@),
        forall|i: int|
            0 <= i < size ==> #[trigger] r@[i].val() == poly_eval(
                truncated(a.cv(), size as nat),
                coset_point(size as nat, i as nat),
            ),
{
    let c: Vec<Fr> = a.coeffs.iter().map(|s| Fr::from_repr(BigInteger256::new(s.limbs)).unwrap()).collect();
    let e = GeneralEvaluationDomain::<Fr>::new(size).unwrap().coset_fft(&c);
    e.iter().map(|x| Scalar { limbs: x.into_repr().0 }).collect()
}

/// `EvaluationDomain::coset_ifft_in_place` of the domain of size `size`: the
/// coefficients of the polynomial of degree below `size` through the given
/// values on the coset `g·D` (the inverse FFT, then the scaling by powers of
/// `g⁻¹`).
#[verifier::external_body]
fn poly_coset_ifft(evals: &Vec<Scalar>, size: usize) -> (r: Poly)
    requires
        valid_domain_size(size as nat),
        evals.len() == size,
        all_wf(evals@),
    ensures
        r.wf(),
        r.len() <= size,
        forall|i: int|
            0 <= i < size ==> #[trigger] r.eval(coset_point(size as nat, i as nat)) == evals@[i].val(),
{
    let mut e: Vec<Fr> = evals.iter().map(|s| Fr::from_repr(BigInteger256::new(s.limbs)).unwrap()).collect();
    GeneralEvaluationDomain::<Fr>::new(size).unwrap().coset_ifft_in_place(&mut e);
    let p = DensePolynomial::from_coefficients_vec(e);
    Poly { coeffs: p.coeffs.iter().map(|c| Scalar { limbs: c.into_repr().0 }).collect() }
}

} // verus!
