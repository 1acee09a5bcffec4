//! The shaders: one template, made into one for discs and one for distance fields.

use crate::text::{decimal, push_decimal};
use crate::wgsl::{
    AQUA_BLEED_REST, ORB_ANGLE_NONE, ORB_ANGLE_SDF, ORB_AQUA_BLEED_CONTINUOUS,
    ORB_COVERAGE_CIRCLE, ORB_COVERAGE_SDF,
    ORB_EXTRA_BINDINGS_NONE, ORB_EXTRA_BINDINGS_SDF, ORB_HELPERS_NONE, ORB_HELPERS_SDF, ORB_LOAD_ORB,
    ORB_LOAD_ORB_WITH_ROT, ORB_WGSL_TEMPLATE,
};
use vstd::prelude::*;
use vstd::string::*;

verus! {

/// How many samples the watercolour blur takes.
pub const DEFAULT_AQUA_TAPS: u32 = 5;

/// The declaration of the number of samples in the shared watercolour text.
pub const AQUA_TAPS_DECL_48: &'static str = "const AQUA_BLUR_TAPS: u32 = 48u;";

/// Whether a text stands in another at `i`.
pub open spec fn stands_at(s: Seq<char>, i: int, part: Seq<char>) -> bool {
    i + part.len() <= s.len() && s.subrange(i, i + part.len()) == part
}

/// Whether a text stands somewhere in another.
pub open spec fn occurs(part: Seq<char>, s: Seq<char>) -> bool {
    exists|i: int| 0 <= i && #[trigger] stands_at(s, i, part)
}

/// The text from `i` on, every occurrence of `from`, taken from the left, replaced.
pub open spec fn replaced_from(s: Seq<char>, i: nat, from: Seq<char>, to: Seq<char>) -> Seq<char>
    decreases s.len() - i,
{
    if i >= s.len() {
        Seq::empty()
    } else if from.len() > 0 && stands_at(s, i as int, from) {
        to + replaced_from(s, i + from.len(), from, to)
    } else {
        seq![s[i as int]] + replaced_from(s, i + 1, from, to)
    }
}

/// A text with every occurrence of another replaced.
pub open spec fn replaced(s: Seq<char>, from: Seq<char>, to: Seq<char>) -> Seq<char> {
    replaced_from(s, 0, from, to)
}

/// Replacing a text by itself changes nothing.
pub proof fn lemma_replaced_by_itself(s: Seq<char>, part: Seq<char>)
    ensures
        replaced(s, part, part) == s,
{
    lemma_replaced_by_itself_from(s, 0, part);
    assert(s.skip(0) =~= s);
}

proof fn lemma_replaced_by_itself_from(s: Seq<char>, i: nat, part: Seq<char>)
    requires
        i <= s.len(),
    ensures
        replaced_from(s, i, part, part) == s.skip(i as int),
    decreases s.len() - i,
{
    if i >= s.len() {
        assert(s.skip(i as int) =~= Seq::empty());
    } else if part.len() > 0 && stands_at(s, i as int, part) {
        lemma_replaced_by_itself_from(s, i + part.len(), part);
        assert(s.skip(i as int) =~= part + s.skip((i + part.len()) as int));
    } else {
        lemma_replaced_by_itself_from(s, i + 1, part);
        assert(s.skip(i as int) =~= seq![s[i as int]] + s.skip(i as int + 1));
    }
}

/// Where a text stands, its replacement stands afterwards: a shader that declares the
/// number of samples in the expected words declares the new number.
pub proof fn lemma_replacement_occurs(s: Seq<char>, from: Seq<char>, to: Seq<char>)
    requires
        from.len() > 0,
        occurs(from, s),
    ensures
        occurs(to, replaced(s, from, to)),
{
    let i = choose|i: int| 0 <= i && #[trigger] stands_at(s, i, from);
    lemma_replacement_occurs_from(s, 0, i as nat, from, to);
}

proof fn lemma_replacement_occurs_from(s: Seq<char>, j: nat, i: nat, from: Seq<char>, to: Seq<char>)
    requires
        from.len() > 0,
        j <= i,
        stands_at(s, i as int, from),
    ensures
        occurs(to, replaced_from(s, j, from, to)),
    decreases i - j,
{
    let r = replaced_from(s, j, from, to);
    if stands_at(s, j as int, from) {
        assert(r.subrange(0, to.len() as int) =~= to);
        assert(stands_at(r, 0, to));
    } else {
        lemma_replacement_occurs_from(s, j + 1, i, from, to);
        let rest = replaced_from(s, j + 1, from, to);
        let k = choose|k: int| 0 <= k && #[trigger] stands_at(rest, k, to);
        assert(r.subrange(k + 1, k + 1 + to.len()) =~= rest.subrange(k, k + to.len()));
        assert(stands_at(r, k + 1, to));
    }
}

fn characters(s: &str) -> (r: Vec<char>)
    ensures
        r@ == s@,
{
    let mut r: Vec<char> = Vec::new();
    for c in it: s.chars()
        invariant
            it.seq() == s@,
            r@ == s@.take(it.index() as int),
    {
        r.push(c);
        proof {
            assert(s@.take(it.index() as int + 1) =~= s@.take(it.index() as int).push(c));
        }
    }
    proof {
        assert(s@.take(s@.len() as int) =~= s@);
    }
    r
}

fn matches_at(s: &Vec<char>, i: usize, part: &Vec<char>) -> (r: bool)
    requires
        i <= s@.len(),
    ensures
        r == stands_at(s@, i as int, part@),
{
    let n: usize = s.len();
    if n - i < part.len() {
        return false;
    }
    let mut j: usize = 0;
    while j < part.len()
        invariant
            j <= part@.len(),
            i + part@.len() <= s@.len(),
            n == s@.len(),
            forall|k: int| 0 <= k < j ==> #[trigger] part@[k] == s@[i + k],
        decreases part@.len() - j,
    {
        if s[i + j] != part[j] {
            proof {
                assert(s@.subrange(i as int, i + part@.len())[j as int] != part@[j as int]);
            }
            return false;
        }
        j = j + 1;
    }
    proof {
        assert(s@.subrange(i as int, i + part@.len()) =~= part@);
    }
    true
}

/// Replaces every occurrence of a text.
pub fn replace_all(text: &str, from: &str, to: &str) -> (r: String)
    ensures
        r@ == replaced(text@, from@, to@),
{
    let s = characters(text);
    let part = characters(from);
    let mut r = String::new();
    let mut i: usize = 0;
    proof {
        assert(r@ + replaced_from(s@, 0, part@, to@) =~= replaced(text@, from@, to@));
    }
    while i < s.len()
        invariant
            i <= s@.len(),
            s@ == text@,
            part@ == from@,
            r@ + replaced_from(s@, i as nat, part@, to@) == replaced(text@, from@, to@),
        decreases s@.len() - i,
    {
        let ghost before = r@;
        if part.len() > 0 && matches_at(&s, i, &part) {
            r.append(to);
            proof {
                assert(before + (to@ + replaced_from(s@, (i + part@.len()) as nat, part@, to@))
                    =~= r@ + replaced_from(s@, (i + part@.len()) as nat, part@, to@));
            }
            i = i + part.len();
        } else {
            r.push(s[i]);
            proof {
                assert(before + (seq![s@[i as int]] + replaced_from(s@, (i + 1) as nat, part@, to@))
                    =~= r@ + replaced_from(s@, (i + 1) as nat, part@, to@));
            }
            i = i + 1;
        }
    }
    proof {
        assert(r@ + Seq::<char>::empty() =~= r@);
    }
    r
}

/// The declaration of a number of samples.
pub open spec fn taps_decl(taps: u32) -> Seq<char> {
    "const AQUA_BLUR_TAPS: u32 = "@ + decimal(taps as nat) + "u;"@
}

/// Puts another number of samples into a shader.
pub fn substitute_aqua_taps(src: &str, taps: u32) -> (r: String)
    ensures
        r@ == replaced(src@, AQUA_TAPS_DECL_48@, taps_decl(taps)),
{
    let mut decl = String::from_str("const AQUA_BLUR_TAPS: u32 = ");
    push_decimal(&mut decl, taps as u64);
    decl.append("u;");
    replace_all(src, AQUA_TAPS_DECL_48, decl.as_str())
}

/// The template with the bindings and the reading of an orb in their places.
pub open spec fn shader_front(bindings: Seq<char>, load: Seq<char>, helpers: Seq<char>) -> Seq<char> {
    replaced(
        replaced(
            replaced(ORB_WGSL_TEMPLATE@, "//!ORB_EXTRA_BINDINGS"@, bindings),
            "//!ORB_LOAD"@,
            load,
        ),
        "//!ORB_HELPERS"@,
        helpers,
    )
}

/// The shader of a shape, given the shared watercolour text.
pub open spec fn shader_text(
    front: Seq<char>,
    coverage: Seq<char>,
    angle: Seq<char>,
    bleed: Seq<char>,
    taps: u32,
) -> Seq<char> {
    replaced(
        replaced(
            replaced(
                replaced(replaced(front, "//!ORB_COVERAGE"@, coverage), "//!ORB_ANGLE"@, angle),
                "//!ORB_AQUA_BLEED_SHARED"@,
                bleed,
            ),
            "//!ORB_AQUA_BLEED_GEOM"@,
            ORB_AQUA_BLEED_CONTINUOUS@,
        ),
        AQUA_TAPS_DECL_48@,
        taps_decl(taps),
    )
}

/// The shader for discs.
pub open spec fn disc_shader(bleed: Seq<char>, taps: u32) -> Seq<char> {
    shader_text(
        shader_front(ORB_EXTRA_BINDINGS_NONE@, ORB_LOAD_ORB@, ORB_HELPERS_NONE@),
        ORB_COVERAGE_CIRCLE@,
        ORB_ANGLE_NONE@,
        bleed,
        taps,
    )
}

/// The shader for distance fields.
pub open spec fn field_shader(bleed: Seq<char>, taps: u32) -> Seq<char> {
    shader_text(
        shader_front(ORB_EXTRA_BINDINGS_SDF@, ORB_LOAD_ORB_WITH_ROT@, ORB_HELPERS_SDF@),
        ORB_COVERAGE_SDF@,
        ORB_ANGLE_SDF@,
        bleed,
        taps,
    )
}

/// Makes the shader of a shape.
pub fn compose_shader(
    bindings: &str,
    load: &str,
    helpers: &str,
    coverage: &str,
    angle: &str,
    bleed: &str,
    taps: u32,
) -> (r: String)
    ensures
        r@ == shader_text(
            shader_front(bindings@, load@, helpers@),
            coverage@,
            angle@,
            bleed@,
            taps,
        ),
{
    let a = replace_all(ORB_WGSL_TEMPLATE, "//!ORB_EXTRA_BINDINGS", bindings);
    let b = replace_all(a.as_str(), "//!ORB_LOAD", load);
    let c = replace_all(b.as_str(), "//!ORB_HELPERS", helpers);
    let d = replace_all(c.as_str(), "//!ORB_COVERAGE", coverage);
    let e = replace_all(d.as_str(), "//!ORB_ANGLE", angle);
    let f = replace_all(e.as_str(), "//!ORB_AQUA_BLEED_SHARED", bleed);
    let g = replace_all(f.as_str(), "//!ORB_AQUA_BLEED_GEOM", ORB_AQUA_BLEED_CONTINUOUS);
    substitute_aqua_taps(g.as_str(), taps)
}

/// Whether a text holds whole lines that are comments or empty, and no marker of the
/// template.
pub open spec fn comment_lines(text: Seq<char>) -> bool {
    &&& text.len() > 0 ==> text.last() == '\n'
    &&& !occurs("//!"@, text)
    &&& forall|i: int|
        0 <= i < text.len() && (i == 0 || text[i - 1] == '\n') ==> (#[trigger] text[i] == '\n' || (
        text[i] == '/' && text[i + 1] == '/'))
}

/// Whether a text is the watercolour text: comments, the declaration of 48 samples, and
/// [`AQUA_BLEED_REST`].
pub open spec fn bleed_text(text: Seq<char>) -> bool {
    exists|head: Seq<char>|
        #[trigger] comment_lines(head) && text == head + AQUA_TAPS_DECL_48@ + AQUA_BLEED_REST@
}

/// The watercolour text that `aquarelle` shares, `AQUA_BLEED_WGSL`. The contract claims all
/// of it but the words of the comments at its head.
#[verifier::external_body]
fn aqua_bleed_wgsl() -> (r: &'static str)
    ensures
        bleed_text(r@),
{
    aquarelle::AQUA_BLEED_WGSL
}

/// The watercolour text declares 48 samples.
pub proof fn lemma_bleed_declares_taps(text: Seq<char>)
    requires
        bleed_text(text),
    ensures
        occurs(AQUA_TAPS_DECL_48@, text),
{
    let head = choose|head: Seq<char>|
        #[trigger] comment_lines(head) && text == head + AQUA_TAPS_DECL_48@ + AQUA_BLEED_REST@;
    assert(text.subrange(head.len() as int, (head.len() + AQUA_TAPS_DECL_48@.len()) as int)
        =~= AQUA_TAPS_DECL_48@);
    assert(stands_at(text, head.len() as int, AQUA_TAPS_DECL_48@));
}

/// Makes the shader for discs with a watercolour text.
pub fn compose_disc(bleed: &str, taps: u32) -> (r: String)
    ensures
        r@ == disc_shader(bleed@, taps),
{
    compose_shader(
        ORB_EXTRA_BINDINGS_NONE,
        ORB_LOAD_ORB,
        ORB_HELPERS_NONE,
        ORB_COVERAGE_CIRCLE,
        ORB_ANGLE_NONE,
        bleed,
        taps,
    )
}

/// Makes the shader for distance fields with a watercolour text.
pub fn compose_field(bleed: &str, taps: u32) -> (r: String)
    ensures
        r@ == field_shader(bleed@, taps),
{
    compose_shader(
        ORB_EXTRA_BINDINGS_SDF,
        ORB_LOAD_ORB_WITH_ROT,
        ORB_HELPERS_SDF,
        ORB_COVERAGE_SDF,
        ORB_ANGLE_SDF,
        bleed,
        taps,
    )
}

/// Makes the shader for discs.
pub fn build_orb_wgsl(taps: u32) -> (r: String)
    ensures
        exists|bleed: Seq<char>| #[trigger] bleed_text(bleed) && r@ == disc_shader(bleed, taps),
{
    compose_disc(aqua_bleed_wgsl(), taps)
}

/// Makes the shader for distance fields.
pub fn build_orb_sdf_wgsl(taps: u32) -> (r: String)
    ensures
        exists|bleed: Seq<char>| #[trigger] bleed_text(bleed) && r@ == field_shader(bleed, taps),
{
    compose_field(aqua_bleed_wgsl(), taps)
}

/// The shaders of a renderer.
#[derive(Clone, Debug)]
pub struct Shaders {
    pub aqua_taps: u32,
    pub orb: String,
    pub orb_sdf: String,
}

impl Shaders {
    /// Both shaders hold the same watercolour text.
    pub open spec fn wf(&self) -> bool {
        &&& self.aqua_taps >= 1
        &&& exists|bleed: Seq<char>|
            {
                &&& #[trigger] bleed_text(bleed)
                &&& self.orb@ == disc_shader(bleed, self.aqua_taps)
                &&& self.orb_sdf@ == field_shader(bleed, self.aqua_taps)
            }
    }

    /// The shaders with the usual number of samples.
    pub fn new() -> (r: Shaders)
        ensures
            r.wf(),
            r.aqua_taps == DEFAULT_AQUA_TAPS,
    {
        Shaders::with_aqua_taps(DEFAULT_AQUA_TAPS)
    }

    /// The shaders with another number of samples, one at least.
    pub fn with_aqua_taps(taps: u32) -> (r: Shaders)
        ensures
            r.wf(),
            r.aqua_taps == if taps == 0 {
                1
            } else {
                taps
            },
    {
        let taps: u32 = if taps == 0 {
            1
        } else {
            taps
        };
        let bleed = aqua_bleed_wgsl();
        Shaders {
            aqua_taps: taps,
            orb: compose_disc(bleed, taps),
            orb_sdf: compose_field(bleed, taps),
        }
    }
}

} // verus!
