//! The fixed public parameters and their algebraic facts: alpha generates
//! the multiplicative subgroup of order A, beta the one of order B, and the
//! roots and lengths the transforms use all have inverses. The facts are
//! established by explicit square-and-cube chains over the literal residues.
use crate::fft::{is_pow_of, pow_b};
use crate::field::{A, ALPHA, B, BETA};
use crate::fmath::{
    f_add, f_inv, f_mul, f_pow, has_inverse, in_field, lemma_f_inv_works, lemma_f_pow_adds,
    lemma_f_pow_one, lemma_inverse_unique, qn, Q,
};
use vstd::arithmetic::div_mod::{lemma_fundamental_div_mod_converse, lemma_small_mod};
use vstd::prelude::*;

verus! {

/// One literal product modulo q, certified by its quotient.
proof fn lemma_mul_mod_lit(a: nat, b: nat, k: nat, r: nat)
    requires
        a * b == k * qn() + r,
        r < qn(),
    ensures
        f_mul(a, b) == r,
{
    lemma_fundamental_div_mod_converse((a * b) as int, Q as int, k as int, r as int);
}

/// Squaring steps an exponent chain: from a^e == v and v * v == w conclude
/// a^(2e) == w.
proof fn lemma_pow_square(a: nat, e: nat, v: nat, w: nat)
    requires
        f_pow(a, e) == v,
        f_mul(v, v) == w,
    ensures
        f_pow(a, 2 * e) == w,
{
    lemma_f_pow_adds(a, e, e);
}

/// Cubing steps an exponent chain.
proof fn lemma_pow_cube(a: nat, e: nat, v: nat, w: nat)
    requires
        f_pow(a, e) == v,
        f_mul(f_mul(v, v), v) == w,
    ensures
        f_pow(a, 3 * e) == w,
{
    lemma_f_pow_adds(a, e, e);
    lemma_f_pow_adds(a, e + e, e);
}

/// A canonical residue to the first power is itself.
proof fn lemma_pow_one_lit(a: nat)
    requires
        in_field(a),
    ensures
        f_pow(a, 1) == a,
{
    lemma_f_pow_one(a);
    lemma_small_mod(a, qn());
}

/// An element with a checked literal inverse has that inverse.
proof fn lemma_literal_inverse(a: nat, w: nat)
    requires
        in_field(w),
        f_mul(a, w) == 1,
    ensures
        has_inverse(a),
        f_inv(a) == w,
{
    assert(has_inverse(a)) by {
        assert(in_field(w) && f_mul(a, w) == 1);
    }
    lemma_f_inv_works(a);
    lemma_inverse_unique(a, w, f_inv(a));
}

/// alpha raised along the doubling chain up to A.
proof fn lemma_alpha_chain()
    ensures
        f_pow(ALPHA as nat, (A / 2) as nat) == qn() - 1,
        f_pow(ALPHA as nat, A as nat) == 1,
{
    let a = ALPHA as nat;
    lemma_pow_one_lit(a);
    lemma_mul_mod_lit(133143882366590327879973302471337732666nat, 133143882366590327879973302471337732666nat, 116521442089120468892523770778725927446nat, 44631072715189439610850826198988036878nat);
    lemma_pow_square(a, 1, 133143882366590327879973302471337732666nat, 44631072715189439610850826198988036878nat);
    lemma_mul_mod_lit(44631072715189439610850826198988036878nat, 44631072715189439610850826198988036878nat, 13092966858041095854173493578173645331nat, 41180542088438678798752582768723188401nat);
    lemma_pow_square(a, 2, 44631072715189439610850826198988036878nat, 41180542088438678798752582768723188401nat);
    lemma_mul_mod_lit(41180542088438678798752582768723188401nat, 41180542088438678798752582768723188401nat, 11146731406810557593372119891821760711nat, 89586118883652825230738084440439661978nat);
    lemma_pow_square(a, 4, 41180542088438678798752582768723188401nat, 89586118883652825230738084440439661978nat);
    lemma_mul_mod_lit(89586118883652825230738084440439661978nat, 89586118883652825230738084440439661978nat, 52752720600473464823111526721932716448nat, 50838137418761867792545072809132521220nat);
    lemma_pow_square(a, 8, 89586118883652825230738084440439661978nat, 50838137418761867792545072809132521220nat);
    lemma_mul_mod_lit(50838137418761867792545072809132521220nat, 50838137418761867792545072809132521220nat, 16988016705217727859281981440769201256nat, 85214270883838848910661062398317716392nat);
    lemma_pow_square(a, 16, 50838137418761867792545072809132521220nat, 85214270883838848910661062398317716392nat);
    lemma_mul_mod_lit(85214270883838848910661062398317716392nat, 85214270883838848910661062398317716392nat, 47729631652442311844362754198355192559nat, 109849651816883363787443455859547159377nat);
    lemma_pow_square(a, 32, 85214270883838848910661062398317716392nat, 109849651816883363787443455859547159377nat);
    lemma_mul_mod_lit(109849651816883363787443455859547159377nat, 109849651816883363787443455859547159377nat, 79315996942182501117135050568286101409nat, 152137607412117916810699707336809121792nat);
    lemma_pow_square(a, 64, 109849651816883363787443455859547159377nat, 152137607412117916810699707336809121792nat);
    lemma_mul_mod_lit(152137607412117916810699707336809121792nat, 152137607412117916810699707336809121792nat, 152137607412117916810699707336809121791nat, 1nat);
    lemma_pow_square(a, 128, 152137607412117916810699707336809121792nat, 1nat);
}

/// The inverse of alpha raised along the doubling chain up to A.
proof fn lemma_alpha_inv_chain()
    ensures
        f_pow(109444293707600155132183182877452314667nat, A as nat) == 1,
{
    let a = 109444293707600155132183182877452314667nat;
    lemma_pow_one_lit(a);
    lemma_mul_mod_lit(109444293707600155132183182877452314667nat, 109444293707600155132183182877452314667nat, 78731706307886781211197002970322570781nat, 117422962806303899429806628801291190556nat);
    lemma_pow_square(a, 1, 109444293707600155132183182877452314667nat, 117422962806303899429806628801291190556nat);
    lemma_mul_mod_lit(117422962806303899429806628801291190556nat, 117422962806303899429806628801291190556nat, 90629479645099167252880532503144998745nat, 45852276086510665009855645808366439351nat);
    lemma_pow_square(a, 2, 117422962806303899429806628801291190556nat, 45852276086510665009855645808366439351nat);
    lemma_mul_mod_lit(45852276086510665009855645808366439351nat, 45852276086510665009855645808366439351nat, 13819273604181427251203201801285974254nat, 13870459702713179563044794475812983779nat);
    lemma_pow_square(a, 4, 45852276086510665009855645808366439351nat, 13870459702713179563044794475812983779nat);
    lemma_mul_mod_lit(13870459702713179563044794475812983779nat, 13870459702713179563044794475812983779nat, 1264576560898815291989281208131563248nat, 36189070553685794857110380711802457177nat);
    lemma_pow_square(a, 8, 13870459702713179563044794475812983779nat, 36189070553685794857110380711802457177nat);
    lemma_mul_mod_lit(36189070553685794857110380711802457177nat, 36189070553685794857110380711802457177nat, 8608317495042540069958784998445705080nat, 29980021152463693690920205227440000889nat);
    lemma_pow_square(a, 16, 36189070553685794857110380711802457177nat, 29980021152463693690920205227440000889nat);
    lemma_mul_mod_lit(29980021152463693690920205227440000889nat, 29980021152463693690920205227440000889nat, 5907820450123498022624624037480403585nat, 42287955595234553023256251477261962416nat);
    lemma_pow_square(a, 32, 29980021152463693690920205227440000889nat, 42287955595234553023256251477261962416nat);
    lemma_mul_mod_lit(42287955595234553023256251477261962416nat, 42287955595234553023256251477261962416nat, 11754300720533690352947846186000904448nat, 152137607412117916810699707336809121792nat);
    lemma_pow_square(a, 64, 42287955595234553023256251477261962416nat, 152137607412117916810699707336809121792nat);
    lemma_mul_mod_lit(152137607412117916810699707336809121792nat, 152137607412117916810699707336809121792nat, 152137607412117916810699707336809121791nat, 1nat);
    lemma_pow_square(a, 128, 152137607412117916810699707336809121792nat, 1nat);
}

/// The inverse of alpha squared raised along the doubling chain up to A/2.
proof fn lemma_alpha_sq_inv_chain()
    ensures
        f_pow(117422962806303899429806628801291190556nat, (A / 2) as nat) == 1,
{
    let a = 117422962806303899429806628801291190556nat;
    lemma_pow_one_lit(a);
    lemma_mul_mod_lit(117422962806303899429806628801291190556nat, 117422962806303899429806628801291190556nat, 90629479645099167252880532503144998745nat, 45852276086510665009855645808366439351nat);
    lemma_pow_square(a, 1, 117422962806303899429806628801291190556nat, 45852276086510665009855645808366439351nat);
    lemma_mul_mod_lit(45852276086510665009855645808366439351nat, 45852276086510665009855645808366439351nat, 13819273604181427251203201801285974254nat, 13870459702713179563044794475812983779nat);
    lemma_pow_square(a, 2, 45852276086510665009855645808366439351nat, 13870459702713179563044794475812983779nat);
    lemma_mul_mod_lit(13870459702713179563044794475812983779nat, 13870459702713179563044794475812983779nat, 1264576560898815291989281208131563248nat, 36189070553685794857110380711802457177nat);
    lemma_pow_square(a, 4, 13870459702713179563044794475812983779nat, 36189070553685794857110380711802457177nat);
    lemma_mul_mod_lit(36189070553685794857110380711802457177nat, 36189070553685794857110380711802457177nat, 8608317495042540069958784998445705080nat, 29980021152463693690920205227440000889nat);
    lemma_pow_square(a, 8, 36189070553685794857110380711802457177nat, 29980021152463693690920205227440000889nat);
    lemma_mul_mod_lit(29980021152463693690920205227440000889nat, 29980021152463693690920205227440000889nat, 5907820450123498022624624037480403585nat, 42287955595234553023256251477261962416nat);
    lemma_pow_square(a, 16, 29980021152463693690920205227440000889nat, 42287955595234553023256251477261962416nat);
    lemma_mul_mod_lit(42287955595234553023256251477261962416nat, 42287955595234553023256251477261962416nat, 11754300720533690352947846186000904448nat, 152137607412117916810699707336809121792nat);
    lemma_pow_square(a, 32, 42287955595234553023256251477261962416nat, 152137607412117916810699707336809121792nat);
    lemma_mul_mod_lit(152137607412117916810699707336809121792nat, 152137607412117916810699707336809121792nat, 152137607412117916810699707336809121791nat, 1nat);
    lemma_pow_square(a, 64, 152137607412117916810699707336809121792nat, 1nat);
}

/// beta raised along the tripling chain up to B.
proof fn lemma_beta_chain()
    ensures
        f_pow(BETA as nat, (B / 3) as nat) == 15255265600908596712800720452291744384nat,
        f_pow(BETA as nat, B as nat) == 1,
{
    let a = BETA as nat;
    lemma_pow_one_lit(a);
    lemma_mul_mod_lit(121862544860742244054334734067969623988nat, 121862544860742244054334734067969623988nat, 97612155814365461977587811921234003635nat, 24214775841454560493152370916385306589nat);
    lemma_mul_mod_lit(24214775841454560493152370916385306589nat, 121862544860742244054334734067969623988nat, 19396086592045575546287947288834812277nat, 5732846247582927182147326720044204271nat);
    lemma_pow_cube(a, 1, 121862544860742244054334734067969623988nat, 5732846247582927182147326720044204271nat);
    lemma_mul_mod_lit(5732846247582927182147326720044204271nat, 5732846247582927182147326720044204271nat, 216024996432327723660759571344140105nat, 81434404326983394414326603915773833176nat);
    lemma_mul_mod_lit(81434404326983394414326603915773833176nat, 5732846247582927182147326720044204271nat, 3068609577942609906941672123362808186nat, 44234496003701815185471305371449297198nat);
    lemma_pow_cube(a, 3, 5732846247582927182147326720044204271nat, 44234496003701815185471305371449297198nat);
    lemma_mul_mod_lit(44234496003701815185471305371449297198nat, 44234496003701815185471305371449297198nat, 12861321207721710480716967609925459486nat, 58331183045528468432796367216469472806nat);
    lemma_mul_mod_lit(58331183045528468432796367216469472806nat, 44234496003701815185471305371449297198nat, 16959978056767497914246150993583938883nat, 16147926443901300262456920797257620369nat);
    lemma_pow_cube(a, 9, 44234496003701815185471305371449297198nat, 16147926443901300262456920797257620369nat);
    lemma_mul_mod_lit(16147926443901300262456920797257620369nat, 16147926443901300262456920797257620369nat, 1713945242554652184341256033414221740nat, 109872259222985807689883328794555316341nat);
    lemma_mul_mod_lit(109872259222985807689883328794555316341nat, 16147926443901300262456920797257620369nat, 11661871054353872204972145403815665071nat, 42855909688399053920028808743945157526nat);
    lemma_pow_cube(a, 27, 16147926443901300262456920797257620369nat, 42855909688399053920028808743945157526nat);
    lemma_mul_mod_lit(42855909688399053920028808743945157526nat, 42855909688399053920028808743945157526nat, 12072156427733636801901771486520527424nat, 85617347793828118742203675440341889444nat);
    lemma_mul_mod_lit(85617347793828118742203675440341889444nat, 42855909688399053920028808743945157526nat, 24117700989428689704865116578749236849nat, 2758101306410801105428677232412005287nat);
    lemma_pow_cube(a, 81, 42855909688399053920028808743945157526nat, 2758101306410801105428677232412005287nat);
    lemma_mul_mod_lit(2758101306410801105428677232412005287nat, 2758101306410801105428677232412005287nat, 50001593595582288717873138034336490nat, 5399117751225488719632430048161825799nat);
    lemma_mul_mod_lit(5399117751225488719632430048161825799nat, 2758101306410801105428677232412005287nat, 97880556796074989634743613553134353nat, 15255265600908596712800720452291744384nat);
    lemma_pow_cube(a, 243, 2758101306410801105428677232412005287nat, 15255265600908596712800720452291744384nat);
    lemma_mul_mod_lit(15255265600908596712800720452291744384nat, 15255265600908596712800720452291744384nat, 1529688369055608613130053674788817536nat, 136882341811209320097898986884517377408nat);
    lemma_mul_mod_lit(136882341811209320097898986884517377408nat, 15255265600908596712800720452291744384nat, 13725577231852988099670666777502926847nat, 1nat);
    lemma_pow_cube(a, 729, 15255265600908596712800720452291744384nat, 1nat);
}

/// The inverse of beta raised along the tripling chain up to B.
proof fn lemma_beta_inv_chain()
    ensures
        f_pow(11774653873598052907953398365374519686nat, B as nat) == 1,
{
    let a = 11774653873598052907953398365374519686nat;
    lemma_pow_one_lit(a);
    lemma_mul_mod_lit(11774653873598052907953398365374519686nat, 11774653873598052907953398365374519686nat, 911296530827358183869383557826471735nat, 50260211214039913401636269822114517741nat);
    lemma_mul_mod_lit(50260211214039913401636269822114517741nat, 11774653873598052907953398365374519686nat, 3889877070671706626535403726812112238nat, 101331719214787549956021422109272946592nat);
    lemma_pow_cube(a, 1, 11774653873598052907953398365374519686nat, 101331719214787549956021422109272946592nat);
    lemma_mul_mod_lit(101331719214787549956021422109272946592nat, 101331719214787549956021422109272946592nat, 67492301829157583168942188441665805743nat, 110662358842782264374371961600518557265nat);
    lemma_mul_mod_lit(110662358842782264374371961600518557265nat, 101331719214787549956021422109272946592nat, 73707002920894490090432664596026057561nat, 74233965554084173333175785658761064007nat);
    lemma_pow_cube(a, 3, 101331719214787549956021422109272946592nat, 74233965554084173333175785658761064007nat);
    lemma_mul_mod_lit(74233965554084173333175785658761064007nat, 74233965554084173333175785658761064007nat, 36221692555985497313735901785591853847nat, 75047117323951848211264737691872308378nat);
    lemma_mul_mod_lit(75047117323951848211264737691872308378nat, 74233965554084173333175785658761064007nat, 36618461517331681495059586638568159977nat, 110823355069485413835020309245199271885nat);
    lemma_pow_cube(a, 9, 74233965554084173333175785658761064007nat, 110823355069485413835020309245199271885nat);
    lemma_mul_mod_lit(110823355069485413835020309245199271885nat, 110823355069485413835020309245199271885nat, 80728336916641815831047132825937228332nat, 20498217432033230259068932288713213949nat);
    lemma_mul_mod_lit(20498217432033230259068932288713213949nat, 110823355069485413835020309245199271885nat, 14931753347534190451842798928855969312nat, 118000200642042252135485210712547107449nat);
    lemma_pow_cube(a, 27, 110823355069485413835020309245199271885nat, 118000200642042252135485210712547107449nat);
    lemma_mul_mod_lit(118000200642042252135485210712547107449nat, 118000200642042252135485210712547107449nat, 91522718073540336543963113959891609830nat, 55107680256826509408047371625445262411nat);
    lemma_mul_mod_lit(55107680256826509408047371625445262411nat, 118000200642042252135485210712547107449nat, 42742339897643812284195806574152077111nat, 85101621927503879315056985256091219516nat);
    lemma_pow_cube(a, 81, 118000200642042252135485210712547107449nat, 85101621927503879315056985256091219516nat);
    lemma_mul_mod_lit(85101621927503879315056985256091219516nat, 85101621927503879315056985256091219516nat, 47603522744205806136217356126325992289nat, 139119042825020297902206079704719420079nat);
    lemma_mul_mod_lit(139119042825020297902206079704719420079nat, 85101621927503879315056985256091219516nat, 77819392501292153826751062102380565892nat, 136882341811209320097898986884517377408nat);
    lemma_pow_cube(a, 243, 85101621927503879315056985256091219516nat, 136882341811209320097898986884517377408nat);
    lemma_mul_mod_lit(136882341811209320097898986884517377408nat, 136882341811209320097898986884517377408nat, 123156764579356331998228320107014450560nat, 15255265600908596712800720452291744384nat);
    lemma_mul_mod_lit(15255265600908596712800720452291744384nat, 136882341811209320097898986884517377408nat, 13725577231852988099670666777502926847nat, 1nat);
    lemma_pow_cube(a, 729, 136882341811209320097898986884517377408nat, 1nat);
}

/// The parameters of the radix-2 grids: alpha generates the subgroup of
/// order exactly A (alpha^A = 1 and alpha^(A/2) = q - 1); A and A/2 are
/// powers of two; alpha, alpha^2 and both lengths are invertible, and the
/// inverse roots are roots of unity of the matching order.
pub proof fn lemma_alpha_params()
    ensures
        f_pow(ALPHA as nat, A as nat) == 1,
        f_pow(ALPHA as nat, (A / 2) as nat) == qn() - 1,
        is_pow_of(2, A as nat),
        is_pow_of(2, (A / 2) as nat),
        has_inverse(ALPHA as nat),
        f_pow(f_inv(ALPHA as nat), A as nat) == 1,
        has_inverse(f_mul(ALPHA as nat, ALPHA as nat)),
        f_pow(f_inv(f_mul(ALPHA as nat, ALPHA as nat)), (A / 2) as nat) == 1,
        has_inverse(A as nat),
        has_inverse((A / 2) as nat),
{
    lemma_alpha_chain();
    assert(pow_b(2, 8) == 256 && pow_b(2, 7) == 128) by {
        reveal_with_fuel(pow_b, 9);
    }
    assert(is_pow_of(2, A as nat)) by {
        assert(A as nat == pow_b(2, 8));
    }
    assert(is_pow_of(2, (A / 2) as nat)) by {
        assert((A / 2) as nat == pow_b(2, 7));
    }
    lemma_mul_mod_lit(133143882366590327879973302471337732666nat, 109444293707600155132183182877452314667nat, 95780645002693891351051487009107083197nat, 1nat);
    lemma_literal_inverse(133143882366590327879973302471337732666nat, 109444293707600155132183182877452314667nat);
    lemma_alpha_inv_chain();
    lemma_mul_mod_lit(133143882366590327879973302471337732666nat, 133143882366590327879973302471337732666nat, 116521442089120468892523770778725927446nat, 44631072715189439610850826198988036878nat);
    lemma_mul_mod_lit(44631072715189439610850826198988036878nat, 117422962806303899429806628801291190556nat, 34447188177771396945985964730624035719nat, 1nat);
    lemma_literal_inverse(44631072715189439610850826198988036878nat, 117422962806303899429806628801291190556nat);
    lemma_alpha_sq_inv_chain();
    lemma_mul_mod_lit(256nat, 151543319883164331198157911605024711161nat, 255nat, 1nat);
    lemma_literal_inverse(256nat, 151543319883164331198157911605024711161nat);
    lemma_mul_mod_lit(128nat, 150949032354210745585616115873240300529nat, 127nat, 1nat);
    lemma_literal_inverse(128nat, 150949032354210745585616115873240300529nat);
}

/// The parameters of the radix-3 grid: beta generates the subgroup of order
/// exactly B (beta^B = 1 and beta^(B/3) is not 1); B is a power of three;
/// beta and B are invertible, and the inverse root is a B-th root of unity.
pub proof fn lemma_beta_params()
    ensures
        f_pow(BETA as nat, B as nat) == 1,
        f_pow(BETA as nat, (B / 3) as nat) != 1,
        f_add(
            f_add(1, f_pow(BETA as nat, (B / 3) as nat)),
            f_mul(f_pow(BETA as nat, (B / 3) as nat), f_pow(BETA as nat, (B / 3) as nat)),
        ) == 0,
        is_pow_of(3, B as nat),
        has_inverse(BETA as nat),
        f_pow(f_inv(BETA as nat), B as nat) == 1,
        has_inverse(B as nat),
{
    lemma_beta_chain();
    // the one-third power is a primitive cube root: 1 + z + z^2 == 0
    lemma_mul_mod_lit(
        15255265600908596712800720452291744384nat,
        15255265600908596712800720452291744384nat,
        1529688369055608613130053674788817536nat,
        136882341811209320097898986884517377408nat,
    );
    assert(f_add(1, 15255265600908596712800720452291744384nat)
        == 15255265600908596712800720452291744385nat) by {
        lemma_small_mod(15255265600908596712800720452291744385nat, qn());
    }
    assert(f_add(
        15255265600908596712800720452291744385nat,
        136882341811209320097898986884517377408nat,
    ) == 0) by {
        assert(15255265600908596712800720452291744385nat
            + 136882341811209320097898986884517377408nat == qn());
        lemma_small_mod(0, qn());
        vstd::arithmetic::div_mod::lemma_mod_multiples_vanish(1, 0, Q as int);
    }
    assert(pow_b(3, 7) == 2187) by {
        reveal_with_fuel(pow_b, 8);
    }
    assert(is_pow_of(3, B as nat)) by {
        assert(B as nat == pow_b(3, 7));
    }
    lemma_mul_mod_lit(121862544860742244054334734067969623988nat, 11774653873598052907953398365374519686nat, 9431522621518266051079368359771300919nat, 1nat);
    lemma_literal_inverse(121862544860742244054334734067969623988nat, 11774653873598052907953398365374519686nat);
    lemma_beta_inv_chain();
    lemma_mul_mod_lit(2187nat, 152068042891124721604110452783843045377nat, 2186nat, 1nat);
    lemma_literal_inverse(2187nat, 152068042891124721604110452783843045377nat);
}

} // verus!
