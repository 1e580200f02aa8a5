//! Call sites: the places in a script where one of the event functions is called with a quoted
//! name as its first argument, such as `AddEventHandler('esx:ready'`.
//!
//! The sites are found with a regular expression per function. What a site is, and which sites a
//! script has, is stated here over bytes, since scripts need not be valid UTF-8.
use crate::text::views;
use regex::bytes::Regex;
use vstd::prelude::*;
use vstd::utf8::*;

verus! {

/// A quotation mark of either kind.
pub open spec fn is_quote(b: u8) -> bool {
    b == 0x22 || b == 0x27
}

/// The characters with the Unicode property White_Space.
pub open spec fn is_white_space(c: char) -> bool {
    ||| '\u{9}' <= c <= '\u{d}'
    ||| c == '\u{20}'
    ||| c == '\u{85}'
    ||| c == '\u{a0}'
    ||| c == '\u{1680}'
    ||| '\u{2000}' <= c <= '\u{200a}'
    ||| c == '\u{2028}'
    ||| c == '\u{2029}'
    ||| c == '\u{202f}'
    ||| c == '\u{205f}'
    ||| c == '\u{3000}'
}

/// Bytes that encode nothing but white space.
pub open spec fn is_blank(bytes: Seq<u8>) -> bool {
    &&& valid_utf8(bytes)
    &&& forall|i: int|
        0 <= i < decode_utf8(bytes).len() ==> is_white_space(#[trigger] decode_utf8(bytes)[i])
}

/// Position of the first quotation mark at or after `i`; the length of `code` where there is none.
pub open spec fn next_quote(code: Seq<u8>, i: int) -> int
    decreases code.len() - i,
{
    if i >= code.len() {
        code.len() as int
    } else if is_quote(code[i]) {
        i
    } else {
        next_quote(code, i + 1)
    }
}

/// Where a call site lies: `code[start..end]` is the text from the function's name to the closing
/// quotation mark, and `code[name_start..name_end]` the text between the two marks.
#[verifier::ext_equal]
pub struct Site {
    pub start: int,
    pub name_start: int,
    pub name_end: int,
    pub end: int,
}

/// The call site that begins at `i`, if there is one: the function's name, an opening parenthesis,
/// any amount of white space, a quotation mark, and valid UTF-8 up to the next quotation mark.
pub open spec fn site_at(func: Seq<char>, code: Seq<u8>, i: int) -> Option<Site> {
    let paren = i + encode_utf8(func).len();
    let open = next_quote(code, paren + 1);
    let close = next_quote(code, open + 1);
    if {
        &&& 0 <= i
        &&& close < code.len()
        &&& code.subrange(i, paren) == encode_utf8(func)
        &&& code[paren] == 0x28
        &&& is_blank(code.subrange(paren + 1, open))
        &&& valid_utf8(code.subrange(open + 1, close))
    } {
        Some(Site { start: i, name_start: open + 1, name_end: close, end: close + 1 })
    } else {
        None
    }
}

/// The call sites in `code` from position `from` on: the leftmost one, then those after its end.
pub open spec fn call_sites(func: Seq<char>, code: Seq<u8>, from: int) -> Seq<Site>
    decreases code.len() - from,
{
    if from >= code.len() {
        Seq::empty()
    } else {
        match site_at(func, code, from) {
            Some(site) => {
                proof {
                    lemma_site_bounds(func, code, from);
                }
                seq![site] + call_sites(func, code, site.end)
            },
            None => call_sites(func, code, from + 1),
        }
    }
}

pub proof fn lemma_next_quote(code: Seq<u8>, i: int)
    requires
        0 <= i,
    ensures
        i <= code.len() ==> i <= next_quote(code, i) <= code.len(),
        i >= code.len() ==> next_quote(code, i) == code.len(),
        next_quote(code, i) < code.len() ==> is_quote(code[next_quote(code, i)]),
        forall|j: int| i <= j < next_quote(code, i) ==> !is_quote(#[trigger] code[j]),
    decreases code.len() - i,
{
    if i < code.len() && !is_quote(code[i]) {
        lemma_next_quote(code, i + 1);
    }
}

pub proof fn lemma_site_bounds(func: Seq<char>, code: Seq<u8>, i: int)
    ensures
        site_at(func, code, i) matches Some(site) ==> {
            &&& 0 <= i == site.start
            &&& site.start + encode_utf8(func).len() + 2 <= site.name_start <= site.name_end
            &&& site.end == site.name_end + 1
            &&& site.end <= code.len()
        },
{
    if site_at(func, code, i) is Some {
        let paren = i + encode_utf8(func).len();
        lemma_next_quote(code, paren + 1);
        lemma_next_quote(code, next_quote(code, paren + 1) + 1);
    }
}

/// A character that means something in a regular expression unless a backslash stands before it.
pub open spec fn is_meta(c: char) -> bool {
    ||| c == '\\' || c == '.' || c == '+' || c == '*' || c == '?' || c == '('
    ||| c == ')' || c == '|' || c == '[' || c == ']' || c == '{' || c == '}'
    ||| c == '^' || c == '$' || c == '#' || c == '&' || c == '-' || c == '~'
}

/// `text` with a backslash before each character that has a meaning of its own.
pub open spec fn escaped(text: Seq<char>) -> Seq<char>
    decreases text.len(),
{
    if text.len() == 0 {
        Seq::empty()
    } else {
        let c = text.last();
        escaped(text.drop_last()) + if is_meta(c) {
            seq!['\\', c]
        } else {
            seq![c]
        }
    }
}

/// The expression that finds the names a script passes to `func`. Its one group is called `name`.
pub open spec fn scan_pattern(func: Seq<char>) -> Seq<char> {
    "(?s)"@ + escaped(func) + "\\(\\s*['\"](?P<name>[^'\"]*)['\"]"@
}

/// The expression that finds the calls of `func` whose name is to be replaced. It stops at the
/// closing quotation mark, so that it takes in calls with further arguments.
pub open spec fn call_pattern(func: Seq<char>) -> Seq<char> {
    escaped(func) + "\\(\\s*[\"']([^\"']*)[\"']"@
}

/// Longest function name that a [`CallRegex`] is made for.
pub const MAX_FUNC: usize = 64;

/// The regular expression for the call sites of one function.
pub struct CallRegex {
    pub func: String,
    pub pattern: String,
}

impl CallRegex {
    /// The expression is one of the two that belong to the function's name.
    pub open spec fn wf(&self) -> bool {
        &&& encode_utf8(self.func@).len() <= MAX_FUNC
        &&& self.pattern@ == scan_pattern(self.func@) || self.pattern@ == call_pattern(self.func@)
    }
}

/// A call site, as offsets into a script.
pub struct CallSite {
    pub start: usize,
    pub name_start: usize,
    pub name_end: usize,
    pub end: usize,
}

impl View for CallSite {
    type V = Site;

    open spec fn view(&self) -> Site {
        Site {
            start: self.start as int,
            name_start: self.name_start as int,
            name_end: self.name_end as int,
            end: self.end as int,
        }
    }
}

/// Calls `regex::escape`, which puts a backslash before every meta character and keeps the rest.
#[verifier::external_body]
fn escape(text: &str) -> (r: String)
    ensures
        r@ == escaped(text@),
{
    regex::escape(text)
}

/// Compiles the expression with `regex::bytes::Regex::new` and collects what `captures_iter`
/// yields on `code`: of each match, the bounds of the whole and of the first group.
///
/// What is claimed: an expression of the two shapes that [`CallRegex::wf`] admits compiles (its
/// only variable part is a literal of at most [`MAX_FUNC`] bytes, far from the size limit), and
/// its successive leftmost matches are the call sites of the function. Beyond the documented
/// meaning of the syntax this rests on three facts: `\s` is the Unicode property White_Space,
/// a class such as `[^'"]` matches only well-formed UTF-8, also in a byte string, and the search
/// goes on at the end of the match before it.
#[verifier::external_body]
pub(crate) fn captures(re: &CallRegex, code: &[u8]) -> (r: Vec<CallSite>)
    requires
        re.wf(),
    ensures
        views(r@) == call_sites(re.func@, code@, 0),
{
    Regex::new(re.pattern.as_str())
        .expect("valid regex")
        .captures_iter(code)
        .map(|c| (c.get(0).unwrap().range(), c.get(1).unwrap().range()))
        .map(|(whole, name)| CallSite {
            start: whole.start,
            name_start: name.start,
            name_end: name.end,
            end: whole.end,
        })
        .collect()
}

/// The expression that finds the names passed to `func`.
pub fn scan_regex(func: &str) -> (re: CallRegex)
    requires
        encode_utf8(func@).len() <= MAX_FUNC,
    ensures
        re.wf(),
        re.func@ == func@,
        re.pattern@ == scan_pattern(func@),
{
    let mut pattern: String = "(?s)".to_owned();
    pattern.append(escape(func).as_str());
    pattern.append("\\(\\s*['\"](?P<name>[^'\"]*)['\"]");
    CallRegex { func: func.to_owned(), pattern }
}

/// The expression that finds the calls of `func` whose name is to be replaced.
pub fn call_regex(func: &str) -> (re: CallRegex)
    requires
        encode_utf8(func@).len() <= MAX_FUNC,
    ensures
        re.wf(),
        re.func@ == func@,
        re.pattern@ == call_pattern(func@),
{
    let mut pattern: String = escape(func);
    pattern.append("\\(\\s*[\"']([^\"']*)[\"']");
    CallRegex { func: func.to_owned(), pattern }
}

/// The name at a call site.
pub open spec fn site_name(code: Seq<u8>, site: Site) -> Seq<char> {
    decode_utf8(code.subrange(site.name_start, site.name_end))
}

/// The names that `code` passes to `func`, in the order of the calls.
pub open spec fn names_in(func: Seq<char>, code: Seq<u8>) -> Seq<Seq<char>> {
    call_sites(func, code, 0).map_values(|site: Site| site_name(code, site))
}

/// The first of the call sites from `from` on lies at or after `from` and begins a call; the
/// others are those from its end on; and no call begins before it.
pub proof fn lemma_first_site(func: Seq<char>, code: Seq<u8>, from: int)
    requires
        0 <= from,
    ensures
        ({
            let sites = call_sites(func, code, from);
            if sites.len() == 0 {
                forall|i: int| from <= i < code.len() ==> site_at(func, code, i) is None
            } else {
                &&& from <= sites[0].start < sites[0].end <= code.len()
                &&& site_at(func, code, sites[0].start) == Some(sites[0])
                &&& sites.drop_first() == call_sites(func, code, sites[0].end)
                &&& forall|i: int| from <= i < sites[0].start ==> site_at(func, code, i) is None
            }
        }),
    decreases code.len() - from,
{
    if from < code.len() {
        lemma_site_bounds(func, code, from);
        match site_at(func, code, from) {
            Some(site) => {
                let rest = call_sites(func, code, site.end);
                assert((seq![site] + rest).drop_first() =~= rest);
            },
            None => {
                lemma_first_site(func, code, from + 1);
            },
        }
    }
}

/// Every call site lies in the script and holds a name in UTF-8.
pub proof fn lemma_sites(func: Seq<char>, code: Seq<u8>, from: int)
    requires
        0 <= from,
    ensures
        forall|k: int|
            0 <= k < call_sites(func, code, from).len() ==> {
                let site = #[trigger] call_sites(func, code, from)[k];
                &&& from <= site.start <= site.name_start <= site.name_end < site.end <= code.len()
                &&& valid_utf8(code.subrange(site.name_start, site.name_end))
            },
    decreases code.len() - from,
{
    let sites = call_sites(func, code, from);
    lemma_first_site(func, code, from);
    if sites.len() > 0 {
        let first = sites[0];
        lemma_site_bounds(func, code, first.start);
        lemma_sites(func, code, first.end);
        assert forall|k: int| 0 <= k < sites.len() implies {
            let site = #[trigger] sites[k];
            &&& from <= site.start <= site.name_start <= site.name_end < site.end <= code.len()
            &&& valid_utf8(code.subrange(site.name_start, site.name_end))
        } by {
            if k > 0 {
                assert(sites[k] == sites.drop_first()[k - 1]);
            }
        }
    }
}

} // verus!
