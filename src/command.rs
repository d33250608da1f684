use vstd::prelude::*;

verus! {

/// What `str::trim` returns for a text: the text without its leading and
/// trailing whitespace.
pub uninterp spec fn trim_of(s: Seq<char>) -> Seq<char>;

/// Relies on `str::trim`, which removes leading and trailing whitespace; its
/// result depends on the text alone.
#[verifier::external_body]
fn trimmed<'a>(s: &'a str) -> (r: &'a str)
    ensures
        r@ == trim_of(s@),
{
    s.trim()
}

/// The word that ends a session.
pub open spec fn quit_word() -> Seq<char> {
    seq!['q', 'u', 'i', 't']
}

/// Whether an already trimmed line is the word `quit`.
pub fn is_quit_word(t: &str) -> (r: bool)
    ensures
        r == (t@ == quit_word()),
{
    let v = crate::scan::chars_of(t);
    let r = v.len() == 4 && v[0] == 'q' && v[1] == 'u' && v[2] == 'i' && v[3] == 't';
    assert(r ==> v@ =~= quit_word());
    r
}

/// Whether `line`, without surrounding whitespace, is the word `quit`, which
/// ends a session instead of being evaluated.
pub fn is_quit(line: &str) -> (r: bool)
    ensures
        r == (trim_of(line@) == quit_word()),
{
    is_quit_word(trimmed(line))
}

} // verus!
