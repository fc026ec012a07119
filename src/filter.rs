use vstd::prelude::*;
use vstd::string::*;

verus! {

/// The substring assertion of a filter: an optional leading fragment, any
/// number of inner fragments in order, an optional trailing fragment.
#[derive(Debug)]
pub struct SubstringFilter {
    pub initial: Option<String>,
    pub any: Vec<String>,
    pub final_: Option<String>,
}

/// A search filter.
#[derive(Debug)]
pub enum Filter {
    /// All sub-filters hold.
    And(Vec<Filter>),
    /// Some sub-filter holds.
    Or(Vec<Filter>),
    /// The sub-filter does not hold.
    Not(Box<Filter>),
    /// The attribute has a value equal to the bytes of the text.
    Equality(String, String),
    /// The attribute exists.
    Present(String),
    /// A value of the attribute matches the substring assertion.
    Substring(String, SubstringFilter),
    /// A form this directory does not evaluate (ordering, approximate,
    /// extensible matches): it never holds.
    Unsupported,
}

/// Characters that `regex::escape` guards with a backslash.
pub open spec fn is_regex_meta(c: char) -> bool {
    c == '\\' || c == '.' || c == '+' || c == '*' || c == '?' || c == '(' || c == ')' || c == '|'
        || c == '[' || c == ']' || c == '{' || c == '}' || c == '^' || c == '$' || c == '#' || c
        == '&' || c == '-' || c == '~'
}

/// The text with a backslash before every meta character.
pub open spec fn regex_escaped(s: Seq<char>) -> Seq<char>
    decreases s.len(),
{
    if s.len() == 0 {
        Seq::empty()
    } else {
        regex_escaped(s.drop_last()) + if is_regex_meta(s.last()) {
            seq!['\\', s.last()]
        } else {
            seq![s.last()]
        }
    }
}

/// Relies on `regex::escape`: every meta character gets a backslash in front,
/// every other character is kept.
#[verifier::external_body]
fn escape(s: &str) -> (r: String)
    ensures
        r@ == regex_escaped(s@),
{
    regex::escape(s)
}

/// `.*f.*` for every inner fragment, in order.
pub open spec fn inner_pattern(any: Seq<Seq<char>>) -> Seq<char>
    decreases any.len(),
{
    if any.len() == 0 {
        Seq::empty()
    } else {
        inner_pattern(any.drop_last()) + ".*"@ + regex_escaped(any.last()) + ".*"@
    }
}

/// The pattern of a substring assertion: `^initial`, `.*any.*` for each inner
/// fragment, `final$`, every fragment taken literally.
pub open spec fn substring_pattern(initial: Option<Seq<char>>, any: Seq<Seq<char>>, fin: Option<Seq<char>>) -> Seq<char> {
    (match initial {
        Some(i) => "^"@ + regex_escaped(i),
        None => Seq::empty(),
    }) + inner_pattern(any) + (match fin {
        Some(f) => regex_escaped(f) + "$"@,
        None => Seq::empty(),
    })
}

/// The views of a list of texts.
pub open spec fn strings_view(v: Seq<String>) -> Seq<Seq<char>> {
    v.map_values(|s: String| s@)
}

/// The view of an optional text.
pub open spec fn opt_view(o: Option<String>) -> Option<Seq<char>> {
    match o {
        Some(s) => Some(s@),
        None => None,
    }
}

impl SubstringFilter {
    /// The regular expression this assertion stands for.
    pub open spec fn pattern(&self) -> Seq<char> {
        substring_pattern(opt_view(self.initial), strings_view(self.any@), opt_view(self.final_))
    }

    /// Builds the regular expression of this assertion.
    pub fn to_pattern(&self) -> (r: String)
        ensures
            r@ == self.pattern(),
    {
        let mut out = String::new();
        match &self.initial {
            Some(i) => {
                out.append("^");
                let e = escape(i.as_str());
                out.append(e.as_str());
            },
            None => {},
        }
        let ghost head = out@;
        let ghost av = strings_view(self.any@);
        let mut k: usize = 0;
        while k < self.any.len()
            invariant
                k <= self.any.len(),
                av == strings_view(self.any@),
                out@ == head + inner_pattern(av.subrange(0, k as int)),
            decreases self.any.len() - k,
        {
            let ghost before = out@;
            out.append(".*");
            let e = escape(self.any[k].as_str());
            out.append(e.as_str());
            out.append(".*");
            assert(av.subrange(0, k + 1).drop_last() =~= av.subrange(0, k as int));
            assert(out@ =~= head + inner_pattern(av.subrange(0, k + 1)));
            k = k + 1;
        }
        assert(av.subrange(0, self.any.len() as int) =~= av);
        let ghost mid = out@;
        match &self.final_ {
            Some(f) => {
                let e = escape(f.as_str());
                out.append(e.as_str());
                out.append("$");
                assert(out@ =~= mid + (regex_escaped(f@) + "$"@));
            },
            None => {
                assert(out@ =~= mid + Seq::<char>::empty());
            },
        }
        out
    }
}

#[verifier::external_type_specification]
#[verifier::external_body]
pub struct ExRegex(regex::Regex);

#[verifier::external_type_specification]
#[verifier::external_body]
pub struct ExRegexError(regex::Error);

/// Whether `regex::Regex::new` accepts the pattern.
pub uninterp spec fn regex_compiles(pattern: Seq<char>) -> bool;

/// Whether the compiled pattern matches somewhere in the haystack.
pub uninterp spec fn regex_finds(pattern: Seq<char>, haystack: Seq<char>) -> bool;

/// The text `String::from_utf8_lossy` makes of the bytes.
pub uninterp spec fn utf8_lossy(bytes: Seq<u8>) -> Seq<char>;

/// Relies on `regex::Regex::new`: whether a pattern compiles depends on the
/// pattern alone.
#[verifier::external_body]
fn regex_new(pattern: &str) -> (r: Result<regex::Regex, regex::Error>)
    ensures
        r is Ok <==> regex_compiles(pattern@),
{
    regex::Regex::new(pattern)
}

/// Relies on `String::from_utf8_lossy`: the text depends on the bytes alone.
#[verifier::external_body]
pub(crate) fn decode_lossy(bytes: &[u8]) -> (r: String)
    ensures
        r@ == utf8_lossy(bytes@),
{
    String::from_utf8_lossy(bytes).into_owned()
}

/// A compiled regular expression together with the pattern it was built from.
pub struct CompiledPattern {
    source: String,
    re: regex::Regex,
}

impl CompiledPattern {
    /// The pattern the expression was compiled from.
    pub closed spec fn source(&self) -> Seq<char> {
        self.source@
    }

    /// Compiles `pattern`; `None` when the regex engine refuses it.
    pub(crate) fn compile(pattern: String) -> (r: Option<CompiledPattern>)
        ensures
            r is Some <==> regex_compiles(pattern@),
            r matches Some(c) ==> c.source() == pattern@,
    {
        match regex_new(pattern.as_str()) {
            Ok(re) => Some(CompiledPattern { source: pattern, re }),
            Err(_) => None,
        }
    }

    /// Relies on `regex::Regex::is_match`: whether the expression compiled
    /// from `self.source()` matches somewhere in `haystack`. The fields are
    /// private and `compile` alone builds a value, from `source` itself.
    #[verifier::external_body]
    pub(crate) fn is_match(&self, haystack: &str) -> (r: bool)
        ensures
            r == regex_finds(self.source(), haystack@),
    {
        self.re.is_match(haystack)
    }
}

} // verus!
