//! The target selector of a patch instruction: a literal id, or a regular
//! expression matched against the decimal text of every candidate id.

use vstd::prelude::*;

verus! {

use crate::prim::decimal_seq;
use crate::prim::push_decimal;

/// Whether `pattern` is a syntactically valid regular expression.
pub uninterp spec fn regex_pattern_ok(pattern: Seq<char>) -> bool;

/// Whether the regular expression `pattern` matches somewhere in `text`,
/// the bytes read as UTF-8; unanchored, as the regex dialect has it, and
/// never a match in text that is not well-formed UTF-8.
pub uninterp spec fn regex_matches(pattern: Seq<char>, text: Seq<u8>) -> bool;

/// Relies on `regex::Regex::new`: it succeeds exactly on valid pattern
/// syntax, a function of the pattern text alone.
#[verifier::external_body]
fn regex_compiles(pattern: &str) -> (r: bool)
    ensures
        r == regex_pattern_ok(pattern@),
{
    regex::Regex::new(pattern).is_ok()
}

/// Relies on `regex::Regex::new` and `regex::Regex::is_match`: whether a
/// valid pattern matches is a function of the pattern text and the
/// haystack alone.
#[verifier::external_body]
fn regex_is_match(pattern: &str, text: &[u8]) -> (r: bool)
    requires
        regex_pattern_ok(pattern@),
    ensures
        r == regex_matches(pattern@, text@),
{
    match regex::Regex::new(pattern) {
        Ok(re) => match core::str::from_utf8(text) {
            Ok(t) => re.is_match(t),
            Err(_) => false,
        },
        Err(_) => false,
    }
}

/// A pattern whose text is known, by construction, to be a valid regular
/// expression: matching against it can never fail.
pub struct Pattern {
    text: String,
}

impl View for Pattern {
    type V = Seq<char>;

    closed spec fn view(&self) -> Seq<char> {
        self.text@
    }
}

impl Pattern {
    #[verifier::type_invariant]
    spec fn inv(self) -> bool {
        regex_pattern_ok(self.text@)
    }

    /// Checks the text once; an invalid pattern yields `None`.
    pub fn new(text: String) -> (r: Option<Pattern>)
        ensures
            match r {
                Some(p) => regex_pattern_ok(text@) && p@ == text@,
                None => !regex_pattern_ok(text@),
            },
    {
        if regex_compiles(text.as_str()) {
            Some(Pattern { text })
        } else {
            None
        }
    }

    pub fn as_str(&self) -> (r: &str)
        ensures
            r@ == self@,
    {
        self.text.as_str()
    }
}

/// A selector: a pattern over decimal id text, or a plain value.
pub enum RegexOr<T> {
    Regex(Pattern),
    Other(T),
}

#[verifier::ext_equal]
pub enum RegexOrV {
    Regex(Seq<char>),
    Other(u32),
}

impl View for RegexOr<u32> {
    type V = RegexOrV;

    open spec fn view(&self) -> RegexOrV {
        match self {
            RegexOr::Regex(p) => RegexOrV::Regex(p@),
            RegexOr::Other(v) => RegexOrV::Other(*v),
        }
    }
}

/// What it means for a selector to pick an id: literal equality, or a
/// regex match against the id's decimal text.
pub open spec fn sel_matches(sel: RegexOrV, id: u32) -> bool {
    match sel {
        RegexOrV::Regex(p) => regex_matches(p, decimal_seq(id as nat)),
        RegexOrV::Other(v) => id == v,
    }
}

/// Resolves a selector against candidate ids: every candidate the selector
/// picks, in the candidates' order, and nothing else. No match is not an
/// error here; the caller decides what an empty resolution means.
#[verifier::loop_isolation(false)]
pub fn collect_matching_ids(ids: &Vec<u32>, sel: &RegexOr<u32>) -> (r: Vec<u32>)
    ensures
        forall|j: int|
            0 <= j < r@.len() ==> ids@.contains(#[trigger] r@[j]) && sel_matches(sel@, r@[j]),
        forall|t: u32| ids@.contains(t) && sel_matches(sel@, t) ==> r@.contains(t),
        (forall|x: int, y: int| 0 <= x < y < ids@.len() ==> ids@[x] < ids@[y]) ==> (forall|
            x: int,
            y: int,
        |
            0 <= x < y < r@.len() ==> r@[x] < r@[y]),
{
    let mut r: Vec<u32> = Vec::new();
    let mut i: usize = 0;
    while i < ids.len()
        invariant
            i <= ids@.len(),
            forall|j: int|
                0 <= j < r@.len() ==> ids@.contains(#[trigger] r@[j]) && sel_matches(
                    sel@,
                    r@[j],
                ),
            forall|j: int|
                0 <= j < i && sel_matches(sel@, ids@[j]) ==> r@.contains(#[trigger] ids@[j]),
            forall|x: int|
                0 <= x < r@.len() ==> exists|j: int|
                    0 <= j < i && #[trigger] ids@[j] == #[trigger] r@[x],
            (forall|x: int, y: int| 0 <= x < y < ids@.len() ==> ids@[x] < ids@[y]) ==> (forall|
                x: int,
                y: int,
            |
                0 <= x < y < r@.len() ==> r@[x] < r@[y]),
        decreases ids@.len() - i,
    {
        let id = ids[i];
        let hit = match sel {
            RegexOr::Regex(p) => {
                proof {
                    use_type_invariant(p);
                }
                let mut digits: Vec<u8> = Vec::new();
                push_decimal(id, &mut digits);
                regex_is_match(p.as_str(), digits.as_slice())
            },
            RegexOr::Other(v) => id == *v,
        };
        if hit {
            let ghost rb = r@;
            r.push(id);
            proof {
                assert(ids@[i as int] == id && ids@.contains(id));
                assert forall|x: int| 0 <= x < r@.len() implies exists|j: int|
                    0 <= j < i + 1 && #[trigger] ids@[j] == #[trigger] r@[x] by {
                    if x < rb.len() {
                        assert(r@[x] == rb[x]);
                        let j = choose|j: int| 0 <= j < i && #[trigger] ids@[j] == rb[x];
                        assert(ids@[j] == r@[x]);
                    } else {
                        assert(r@[x] == ids@[i as int]);
                    }
                }
                if forall|x: int, y: int| 0 <= x < y < ids@.len() ==> ids@[x] < ids@[y] {
                    assert forall|x: int, y: int| 0 <= x < y < r@.len() implies r@[x]
                        < r@[y] by {
                        if y == r@.len() - 1 {
                            let j = choose|j: int|
                                0 <= j < i && #[trigger] ids@[j] == #[trigger] r@[x];
                            assert(ids@[j] < ids@[i as int]);
                        } else {
                            assert(rb[x] == r@[x] && rb[y] == r@[y]);
                        }
                    }
                }
                assert forall|j: int|
                    0 <= j < i + 1 && sel_matches(sel@, ids@[j]) implies r@.contains(
                    #[trigger] ids@[j],
                ) by {
                    if j < i {
                        let w = choose|w: int| 0 <= w < rb.len() && rb[w] == ids@[j];
                        assert(r@[w] == ids@[j]);
                    } else {
                        assert(r@[r@.len() - 1] == ids@[j]);
                    }
                }
            }
        }
        i = i + 1;
    }
    proof {
        assert forall|t: u32| ids@.contains(t) && sel_matches(sel@, t) implies r@.contains(
            t,
        ) by {
            let j = choose|j: int| 0 <= j < ids@.len() && ids@[j] == t;
        }
    }
    r
}

} // verus!
