//! Locating the tabix index that belongs to a bgzipped VCF file.

use vstd::prelude::*;

verus! {

/// Relies on `String::push_str`: appends the characters of `t`.
#[verifier::external_body]
fn push_str(s: &mut String, t: &str)
    ensures
        final(s)@ == old(s)@ + t@,
{
    s.push_str(t)
}

/// The path `path` with `.ext` appended.
pub fn push_ext(path: &str, ext: &str) -> (r: String)
    ensures
        r@ == path@ + seq!['.'] + ext@,
{
    let mut s = path.to_owned();
    push_str(&mut s, ".");
    proof {
        reveal_strlit(".");
    }
    push_str(&mut s, ext);
    s
}

/// The path of the tabix index of `src`: `src` with `.tbi` appended.
pub fn build_index_src(src: &str) -> (r: String)
    ensures
        r@ == src@ + seq!['.', 't', 'b', 'i'],
{
    proof {
        reveal_strlit("tbi");
    }
    let r = push_ext(src, "tbi");
    assert(r@ =~= src@ + seq!['.', 't', 'b', 'i']);
    r
}

} // verus!
