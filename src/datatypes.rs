use vstd::prelude::*;

verus! {

/// ASCII case folding of one character: `A`..`Z` become `a`..`z`.
pub open spec fn fold_char(c: char) -> char {
    if 'A' <= c && c <= 'Z' {
        ((c as u32 + 32) as u32) as char
    } else {
        c
    }
}

/// ASCII case folding of a text.
pub open spec fn fold(s: Seq<char>) -> Seq<char> {
    s.map_values(|c: char| fold_char(c))
}

/// Swaps the case of ASCII letters.
pub open spec fn toggle_char(c: char) -> char {
    if 'A' <= c && c <= 'Z' {
        ((c as u32 + 32) as u32) as char
    } else if 'a' <= c && c <= 'z' {
        ((c as u32 - 32) as u32) as char
    } else {
        c
    }
}

/// Swaps the case of every ASCII letter of a text.
pub open spec fn toggle_case(s: Seq<char>) -> Seq<char> {
    s.map_values(|c: char| toggle_char(c))
}

/// Relies on `str::to_ascii_lowercase`: ASCII letters `A`..`Z` become
/// `a`..`z` and every other character is kept.
#[verifier::external_body]
fn ascii_lowercase(s: &str) -> (r: String)
    ensures
        r@ == fold(s@),
{
    s.to_ascii_lowercase()
}

/// A case-insensitive string: the text as given, for display, and its folded
/// form, which alone decides equality.
#[derive(Debug)]
pub struct CIString {
    pub raw: String,
    pub lower: String,
}

impl CIString {
    /// The folded form matches the raw text.
    pub open spec fn wf(&self) -> bool {
        self.lower@ == fold(self.raw@)
    }

    pub fn new(s: &str) -> (r: Self)
        ensures
            r.raw@ == s@,
            r.lower@ == fold(s@),
            r.wf(),
    {
        CIString { raw: s.to_owned(), lower: ascii_lowercase(s) }
    }
}

impl View for CIString {
    type V = Seq<char>;

    /// The folded form.
    open spec fn view(&self) -> Seq<char> {
        self.lower@
    }
}

impl Clone for CIString {
    fn clone(&self) -> (r: Self)
        ensures
            r.raw@ == self.raw@,
            r.lower@ == self.lower@,
    {
        CIString { raw: self.raw.clone(), lower: self.lower.clone() }
    }
}

impl PartialEq for CIString {
    fn eq(&self, other: &CIString) -> (r: bool) {
        self.lower == other.lower
    }
}

impl vstd::std_specs::cmp::PartialEqSpecImpl for CIString {
    open spec fn obeys_eq_spec() -> bool {
        true
    }

    open spec fn eq_spec(&self, other: &CIString) -> bool {
        self@ == other@
    }
}

impl Eq for CIString {}

/// Folding ignores the case of ASCII letters.
pub proof fn lemma_fold_toggle(s: Seq<char>)
    ensures
        fold(toggle_case(s)) == fold(s),
{
    assert forall|i: int| 0 <= i < s.len() implies fold(toggle_case(s))[i] == fold(s)[i] by {
        let c = s[i];
        vstd::utf8::char_u32_cast(c, c as u32);
        if 'a' <= c && c <= 'z' {
            let u = (c as u32 - 32) as u32;
            assert((u as char) as u32 == u);
        }
    }
    assert(fold(toggle_case(s)) =~= fold(s));
}

} // verus!
