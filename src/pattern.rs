use vstd::prelude::*;
use vstd::string::StringSliceAdditionalSpecFns;

verus! {

#[verifier::external_type_specification]
#[verifier::external_body]
pub struct ExRegex(regex::Regex);

#[verifier::external_type_specification]
#[verifier::external_body]
pub struct ExRegexError(regex::Error);

/// Whether `p` is accepted by the regular-expression compiler with its
/// default options.
pub uninterp spec fn compiles(p: Seq<char>) -> bool;

/// The byte range of the leftmost-first match in `h` of pattern `p`, compiled
/// with the default options, if there is one.
pub uninterp spec fn first_match(p: Seq<char>, h: Seq<char>) -> Option<(int, int)>;

/// Relies on `regex::Regex::new`: it succeeds exactly on the texts that compile.
#[verifier::external_body]
fn compile(p: &str) -> (r: Result<regex::Regex, regex::Error>)
    ensures
        r is Ok <==> compiles(p@),
{
    regex::Regex::new(p)
}

/// Relies on `regex::Regex::find`: the leftmost-first match, whose offsets are
/// ordered, lie within the haystack and fall on character boundaries. The
/// expression was made by `Regex::new` from `re.text()` (only
/// `CompiledRegex::new` builds one), so its matches are those of that text.
#[verifier::external_body]
fn find_in(re: &CompiledRegex, h: &str) -> (r: Option<(usize, usize)>)
    ensures
        match r {
            Some((s, e)) => {
                &&& first_match(re.text(), h@) == Some((s as int, e as int))
                &&& s <= e <= h.spec_bytes().len()
                &&& vstd::utf8::is_char_boundary(h.spec_bytes(), s as int)
                &&& vstd::utf8::is_char_boundary(h.spec_bytes(), e as int)
            },
            None => first_match(re.text(), h@) is None,
        },
{
    re.regex.find(h).map(|m| (m.start(), m.end()))
}

/// A regular expression compiled with the default options, together with the
/// text it was compiled from.
#[derive(Debug)]
pub struct CompiledRegex {
    regex: regex::Regex,
    text: String,
}

impl CompiledRegex {
    /// The pattern text.
    pub closed spec fn text(&self) -> Seq<char> {
        self.text@
    }

    /// Compiles `p`; none where it does not compile.
    pub fn new(p: &str) -> (r: Option<CompiledRegex>)
        ensures
            r is Some <==> compiles(p@),
            r matches Some(c) ==> c.text() == p@,
    {
        match compile(p) {
            Ok(regex) => Some(CompiledRegex { regex, text: p.to_owned() }),
            Err(_) => None,
        }
    }

    pub fn as_str(&self) -> (r: &str)
        ensures
            r@ == self.text(),
    {
        self.text.as_str()
    }
}

/// A half-open range of byte offsets.
#[derive(Clone, Copy, Debug, PartialEq, Eq, Structural)]
pub struct ByteRange {
    pub start: usize,
    pub end: usize,
}

/// A search term: empty, a compiled regular expression, or text that does not
/// compile (which matches nothing until it is edited into something valid).
#[derive(Debug)]
pub enum SearchPattern {
    Empty,
    Regex { regex: CompiledRegex },
    Invalid { text: String },
}

impl SearchPattern {
    /// The text the pattern was made from.
    pub open spec fn text(&self) -> Seq<char> {
        match self {
            SearchPattern::Empty => Seq::empty(),
            SearchPattern::Regex { regex } => regex.text(),
            SearchPattern::Invalid { text } => text@,
        }
    }

    /// `self` is the pattern that text `s` gives.
    pub open spec fn denotes(&self, s: Seq<char>) -> bool {
        &&& self.text() == s
        &&& (self is Empty <==> s.len() == 0)
        &&& (self is Regex <==> s.len() != 0 && compiles(s))
        &&& (self is Invalid <==> s.len() != 0 && !compiles(s))
    }

    /// The first match of the pattern in `h`.
    pub open spec fn spec_find(&self, h: Seq<char>) -> Option<(int, int)> {
        match self {
            SearchPattern::Regex { regex } => first_match(regex.text(), h),
            _ => None,
        }
    }

    pub fn empty() -> (r: SearchPattern)
        ensures
            r.denotes(Seq::empty()),
    {
        SearchPattern::Empty
    }

    /// The pattern for `regex`: empty, compiled or invalid.
    pub fn from_string(regex: &str) -> (r: SearchPattern)
        ensures
            r.denotes(regex@),
    {
        if regex.is_empty() {
            assert(regex@ =~= Seq::empty());
            return SearchPattern::Empty;
        }
        match CompiledRegex::new(regex) {
            Some(re) => SearchPattern::Regex { regex: re },
            None => SearchPattern::Invalid { text: regex.to_owned() },
        }
    }

    /// The byte range of the first match in `s`; none for an empty or invalid pattern.
    pub fn find(&self, s: &str) -> (r: Option<ByteRange>)
        ensures
            match r {
                Some(m) => {
                    &&& self.spec_find(s@) == Some((m.start as int, m.end as int))
                    &&& m.start <= m.end <= s.spec_bytes().len()
                    &&& vstd::utf8::is_char_boundary(s.spec_bytes(), m.start as int)
                    &&& vstd::utf8::is_char_boundary(s.spec_bytes(), m.end as int)
                },
                None => self.spec_find(s@) is None,
            },
    {
        match self {
            SearchPattern::Empty => None,
            SearchPattern::Regex { regex } => match find_in(regex, s) {
                Some((a, b)) => Some(ByteRange { start: a, end: b }),
                None => None,
            },
            SearchPattern::Invalid { .. } => None,
        }
    }

    pub fn as_str(&self) -> (r: &str)
        ensures
            r@ == self.text(),
    {
        match self {
            SearchPattern::Empty => {
                proof {
                    reveal_strlit("");
                }
                ""
            },
            SearchPattern::Regex { regex } => regex.as_str(),
            SearchPattern::Invalid { text } => text.as_str(),
        }
    }

    /// Applies `f` to the pattern's text and recompiles the result.
    pub fn modify<F: FnOnce(String) -> String>(&mut self, f: F)
        requires
            forall|a: String| f.requires((a,)),
        ensures
            exists|a: String, t: String|
                a@ == old(self).text() && f.ensures((a,), t) && final(self).denotes(t@),
    {
        let text = self.as_str().to_owned();
        let edited = f(text);
        *self = SearchPattern::from_string(edited.as_str());
    }
}

} // verus!
