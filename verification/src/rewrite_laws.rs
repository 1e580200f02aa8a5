//! What holds of rewriting: the rewritten script has the same calls as before, with the new names.
use crate::calls::{
    call_pattern, call_sites, escaped, is_blank, is_meta, is_quote, is_white_space,
    lemma_first_site, lemma_next_quote, lemma_site_bounds, names_in, next_quote, scan_pattern,
    site_at, site_name, Site,
};
use crate::names::{lemma_position, position};
use crate::rewrite::{
    call_text, lemma_gap, lemma_marks, lookup, paired, pairs, rewritten, rewritten_from, site_text,
};
use vstd::prelude::*;
use vstd::utf8::*;

verus! {

/// A text without quotation marks.
pub open spec fn quote_free(text: Seq<char>) -> bool {
    forall|i: int| 0 <= i < text.len() ==> #[trigger] text[i] != '"' && text[i] != '\''
}

/// Mappings that lead to names without quotation marks.
pub open spec fn quote_free_maps(maps: Seq<Map<Seq<char>, Seq<char>>>) -> bool {
    forall|i: int, name: Seq<char>|
        0 <= i < maps.len() && #[trigger] maps[i].contains_key(name) ==> quote_free(maps[i][name])
}

/// The name that stands for `name` after rewriting.
pub open spec fn renamed(maps: Seq<Map<Seq<char>, Seq<char>>>, name: Seq<char>) -> Seq<char> {
    match lookup(maps, name) {
        Some(new) => new,
        None => name,
    }
}

/// Bytes without quotation marks.
pub open spec fn no_quotes(bytes: Seq<u8>) -> bool {
    forall|i: int| 0 <= i < bytes.len() ==> !is_quote(#[trigger] bytes[i])
}

pub proof fn lemma_scalar_bytes(c: char)
    ensures
        encode_scalar(c as u32).len() >= 1,
        c != '"' && c != '\'' ==> no_quotes(encode_scalar(c as u32)),
{
    let s = c as u32;
    assert(c != '"' && c != '\'' ==> s != 0x22 && s != 0x27);
    if has_width_1_encoding(s) {
        assert((s & 0x7F) as u8 == s) by (bit_vector)
            requires
                s <= 0x7f,
        ;
    } else {
        let b1 = leading_byte_width_2(s);
        let b2 = leading_byte_width_3(s);
        let b3 = leading_byte_width_4(s);
        let c1 = last_continuation_byte(s);
        let c2 = second_last_continuation_byte(s);
        let c3 = third_last_continuation_byte(s);
        assert(b1 >= 0x80 && b2 >= 0x80 && b3 >= 0x80 && c1 >= 0x80 && c2 >= 0x80 && c3 >= 0x80)
            by {
            assert(forall|x: u8| #[trigger] (0xC0u8 | x) >= 0x80) by (bit_vector);
            assert(forall|x: u8| #[trigger] (0xE0u8 | x) >= 0x80) by (bit_vector);
            assert(forall|x: u8| #[trigger] (0xF0u8 | x) >= 0x80) by (bit_vector);
            assert(forall|x: u8| #[trigger] (0x80u8 | x) >= 0x80) by (bit_vector);
        }
    }
}

/// A text without quotation marks is encoded without them.
pub proof fn lemma_quote_free(text: Seq<char>)
    requires
        quote_free(text),
    ensures
        no_quotes(encode_utf8(text)),
    decreases text.len(),
{
    if text.len() > 0 {
        lemma_scalar_bytes(text[0]);
        lemma_quote_free(text.drop_first());
        let head = encode_scalar(text[0] as u32);
        let rest = encode_utf8(text.drop_first());
        assert forall|i: int| 0 <= i < (head + rest).len() implies !is_quote(
            #[trigger] (head + rest)[i],
        ) by {
            if i < head.len() {
                assert((head + rest)[i] == head[i]);
            } else {
                assert((head + rest)[i] == rest[i - head.len()]);
            }
        }
    }
}

/// Where the next quotation mark is.
pub proof fn lemma_next_quote_is(code: Seq<u8>, i: int, q: int)
    requires
        0 <= i <= q <= code.len(),
        q < code.len() ==> is_quote(code[q]),
        forall|j: int| i <= j < q ==> !is_quote(#[trigger] code[j]),
    ensures
        next_quote(code, i) == q,
{
    lemma_next_quote(code, i);
    let p = next_quote(code, i);
    if p < q {
        assert(is_quote(code[p]));
    } else if p > q {
        assert(!is_quote(code[q]));
    }
}

/// The next quotation mark does not depend on what came before.
pub proof fn lemma_next_quote_skip(code: Seq<u8>, k: int, i: int)
    requires
        0 <= k <= code.len(),
        0 <= i,
    ensures
        next_quote(code.skip(k), i) + k == next_quote(code, k + i),
    decreases code.len() - k - i,
{
    if k + i < code.len() && !is_quote(code[k + i]) {
        lemma_next_quote_skip(code, k, i + 1);
    }
}

/// Whether a call begins at a place, and which, depends only on what follows.
pub proof fn lemma_site_skip(func: Seq<char>, code: Seq<u8>, k: int, i: int)
    requires
        0 <= k <= code.len(),
        0 <= i,
    ensures
        site_at(func, code, k + i) is Some <==> site_at(func, code.skip(k), i) is Some,
        site_at(func, code, k + i) matches Some(site) ==> {
            let other = site_at(func, code.skip(k), i).unwrap();
            &&& site.start == k + other.start
            &&& site.name_start == k + other.name_start
            &&& site.name_end == k + other.name_end
            &&& site.end == k + other.end
            &&& site_name(code, site) == site_name(code.skip(k), other)
        },
{
    let rest = code.skip(k);
    let n = encode_utf8(func).len() as int;
    let open = next_quote(rest, i + n + 1);
    let close = next_quote(rest, open + 1);
    lemma_next_quote(rest, i + n + 1);
    lemma_next_quote_skip(code, k, i + n + 1);
    lemma_next_quote_skip(code, k, open + 1);
    lemma_next_quote(rest, open + 1);
    if close < rest.len() {
        assert(code.subrange(k + i, k + i + n) =~= rest.subrange(i, i + n));
        assert(code.subrange(k + i + n + 1, k + open) =~= rest.subrange(i + n + 1, open));
        assert(code.subrange(k + open + 1, k + close) =~= rest.subrange(open + 1, close));
    }
}

/// The names from a place on depend only on what follows.
pub proof fn lemma_names_skip(func: Seq<char>, code: Seq<u8>, k: int, i: int)
    requires
        0 <= k <= code.len(),
        0 <= i,
    ensures
        names_from(func, code, k + i) == names_from(func, code.skip(k), i),
    decreases code.len() - k - i,
{
    let rest = code.skip(k);
    if k + i < code.len() {
        lemma_site_skip(func, code, k, i);
        lemma_site_bounds(func, code, k + i);
        lemma_site_bounds(func, rest, i);
        lemma_names_step(func, code, k + i);
        lemma_names_step(func, rest, i);
        match site_at(func, rest, i) {
            Some(site) => {
                lemma_names_skip(func, code, k, site.end);
            },
            None => {
                lemma_names_skip(func, code, k, i + 1);
            },
        }
    } else {
        assert(names_from(func, code, k + i) =~= names_from(func, rest, i));
    }
}

/// The names at the call sites from `from` on.
pub open spec fn names_from(func: Seq<char>, code: Seq<u8>, from: int) -> Seq<Seq<char>> {
    call_sites(func, code, from).map_values(|site: Site| site_name(code, site))
}

pub proof fn lemma_names_step(func: Seq<char>, code: Seq<u8>, from: int)
    requires
        0 <= from < code.len(),
    ensures
        match site_at(func, code, from) {
            Some(site) => names_from(func, code, from) == seq![site_name(code, site)] + names_from(
                func,
                code,
                site.end,
            ),
            None => names_from(func, code, from) == names_from(func, code, from + 1),
        },
{
    lemma_site_bounds(func, code, from);
    match site_at(func, code, from) {
        Some(site) => {
            assert(names_from(func, code, from) =~= seq![site_name(code, site)] + names_from(
                func,
                code,
                site.end,
            ));
        },
        None => {},
    }
}

/// The two agree in their first `m` bytes, but for the kind of quotation marks.
pub open spec fn alike(a: Seq<u8>, b: Seq<u8>, m: int) -> bool {
    &&& 0 <= m <= a.len()
    &&& m <= b.len()
    &&& forall|j: int|
        0 <= j < m ==> {
            ||| #[trigger] a[j] == #[trigger] b[j]
            ||| is_quote(a[j]) && is_quote(b[j])
        }
}

/// A call is where it is whatever stands after its end.
pub proof fn lemma_site_local(func: Seq<char>, a: Seq<u8>, b: Seq<u8>, m: int)
    requires
        no_quotes(encode_utf8(func)),
        alike(a, b, m),
        site_at(func, a, 0) matches Some(site) && site.end <= m,
    ensures
        site_at(func, b, 0) == site_at(func, a, 0),
        site_name(b, site_at(func, b, 0).unwrap()) == site_name(a, site_at(func, a, 0).unwrap()),
{
    let name = encode_utf8(func);
    let n = name.len() as int;
    let open = next_quote(a, n + 1);
    let close = next_quote(a, open + 1);
    lemma_site_bounds(func, a, 0);
    lemma_next_quote(a, n + 1);
    lemma_next_quote(a, open + 1);
    assert(forall|j: int| 0 <= j < m ==> is_quote(a[j]) == is_quote(#[trigger] b[j]));
    lemma_next_quote_is(b, n + 1, open);
    lemma_next_quote_is(b, open + 1, close);
    assert(a.subrange(0, n) =~= b.subrange(0, n)) by {
        assert(forall|j: int| 0 <= j < n ==> !is_quote(name[j]) && #[trigger] a[j] == name[j]);
    }
    assert(a.subrange(n + 1, open) =~= b.subrange(n + 1, open));
    assert(a.subrange(open + 1, close) =~= b.subrange(open + 1, close));
}

/// White space holds no parenthesis.
pub proof fn lemma_blank(bytes: Seq<u8>)
    requires
        is_blank(bytes),
    ensures
        forall|i: int| 0 <= i < bytes.len() ==> #[trigger] bytes[i] != 0x28,
    decreases bytes.len(),
{
    if bytes.len() > 0 {
        let rest = pop_first_scalar(bytes);
        let n = length_of_first_scalar(bytes);
        let chars = decode_utf8(bytes);
        assert(chars[0] == decode_first_scalar(bytes) as char);
        assert(is_white_space(chars[0]));
        assert(is_blank(rest)) by {
            assert forall|i: int| 0 <= i < decode_utf8(rest).len() implies is_white_space(
                #[trigger] decode_utf8(rest)[i],
            ) by {
                assert(decode_utf8(rest)[i] == chars[i + 1]);
            }
        }
        lemma_blank(rest);
        let b = bytes[0];
        assert(b == 0x28 ==> (b & 0x7F) == 0x28) by (bit_vector);
        assert forall|i: int| 0 <= i < bytes.len() implies #[trigger] bytes[i] != 0x28 by {
            if i >= n {
                assert(bytes[i] == rest[i - n]);
            }
        }
    }
}

/// Rewriting a call of `g` that begins at `k` makes no call of `f` begin at an earlier place where
/// none began before.
pub proof fn lemma_no_new_site(f: Seq<char>, g: Seq<char>, c: Seq<u8>, d: Seq<u8>, k: int)
    requires
        no_quotes(encode_utf8(f)),
        no_quotes(encode_utf8(g)),
        encode_utf8(f).len() <= encode_utf8(g).len() || !encode_utf8(f).contains(0x28),
        1 <= k,
        site_at(f, c, 0) is None,
        site_at(g, c, k) matches Some(site) && {
            ||| alike(c, d, site.end)
            ||| alike(c, d, k + encode_utf8(g).len() + 1) && k + encode_utf8(g).len() + 1 < d.len()
                && is_quote(d[k + encode_utf8(g).len() + 1])
        },
    ensures
        site_at(f, d, 0) is None,
{
    let ff = encode_utf8(f);
    let gg = encode_utf8(g);
    let n = ff.len() as int;
    let paren = k + gg.len();
    let site = site_at(g, c, k).unwrap();
    let open = next_quote(c, paren + 1);
    lemma_site_bounds(g, c, k);
    lemma_next_quote(c, paren + 1);
    lemma_next_quote(c, open + 1);
    assert(forall|j: int|
        k <= j < paren ==> #[trigger] c[j] == c.subrange(k, paren)[j - k] && !is_quote(gg[j - k]));
    assert(forall|j: int| k <= j < open ==> !is_quote(#[trigger] c[j]));
    assert(alike(c, d, paren + 1));
    assert(forall|j: int| k <= j <= paren ==> c[j] == #[trigger] d[j] && !is_quote(d[j]));
    if site_at(f, d, 0) is Some {
        let other = site_at(f, d, 0).unwrap();
        let open_d = next_quote(d, n + 1);
        let close_d = next_quote(d, open_d + 1);
        lemma_site_bounds(f, d, 0);
        lemma_next_quote(d, n + 1);
        lemma_next_quote(d, open_d + 1);
        assert(forall|j: int|
            0 <= j < n ==> #[trigger] d[j] == d.subrange(0, n)[j] && !is_quote(ff[j]));
        if n > paren {
            assert(ff[paren] == d[paren]);
            assert(ff.contains(0x28));
            assert(false);
        }
        assert(forall|j: int| 0 <= j < n ==> #[trigger] c[j] == d[j]);
        assert(c.subrange(0, n) =~= d.subrange(0, n));
        if n == paren {
            assert(site_at(f, c, 0) is Some);
        } else if open_d > paren {
            let gap = d.subrange(n + 1, open_d);
            lemma_blank(gap);
            assert(gap[paren - n - 1] == d[paren]);
            assert(false);
        } else {
            assert(open_d < k);
            if close_d <= paren {
                lemma_alike_back(c, d, paren + 1);
                lemma_site_local(f, d, c, paren + 1);
            } else if alike(c, d, site.end) {
                assert(is_quote(d[open]));
                assert(close_d <= open);
                lemma_alike_back(c, d, site.end);
                lemma_site_local(f, d, c, site.end);
            } else {
                assert(close_d == paren + 1);
                assert(forall|j: int|
                    0 <= j <= paren ==> is_quote(#[trigger] c[j]) == is_quote(d[j]));
                lemma_next_quote_is(c, n + 1, open_d);
                lemma_next_quote_is(c, open_d + 1, open);
                assert(c.subrange(n + 1, open_d) =~= d.subrange(n + 1, open_d));
                valid_utf8_concat(
                    d.subrange(open_d + 1, close_d),
                    c.subrange(paren + 1, open),
                );
                assert(c.subrange(open_d + 1, open) =~= d.subrange(open_d + 1, close_d)
                    + c.subrange(paren + 1, open));
                assert(site_at(f, c, 0) is Some);
            }
        }
    }
}

pub proof fn lemma_alike_back(a: Seq<u8>, b: Seq<u8>, m: int)
    requires
        alike(a, b, m),
    ensures
        alike(b, a, m),
{
}

pub proof fn lemma_alike_concat(p: Seq<u8>, q: Seq<u8>, a: Seq<u8>, b: Seq<u8>, m: int)
    requires
        p.len() == q.len(),
        alike(p, q, p.len() as int),
        alike(a, b, m),
    ensures
        alike(p + a, q + b, p.len() + m),
{
    assert forall|j: int| 0 <= j < p.len() + m implies {
        ||| #[trigger] (p + a)[j] == #[trigger] (q + b)[j]
        ||| is_quote((p + a)[j]) && is_quote((q + b)[j])
    } by {
        if j < p.len() {
            assert((p + a)[j] == p[j] && (q + b)[j] == q[j]);
        } else {
            assert((p + a)[j] == a[j - p.len()] && (q + b)[j] == b[j - p.len()]);
        }
    }
}

/// How far a rewritten call agrees with the call that it was.
pub proof fn lemma_rewritten_head(
    g: Seq<char>,
    code: Seq<u8>,
    maps: Seq<Map<Seq<char>, Seq<char>>>,
    site: Site,
)
    requires
        site_at(g, code, site.start) == Some(site),
    ensures
        ({
            let n = encode_utf8(g).len() as int;
            let here = code.skip(site.start);
            let there = site_text(g, code, site, maps) + rewritten_from(g, code, maps, site.end);
            if lookup(maps, site_name(code, site)) is None {
                alike(here, there, site.end - site.start)
            } else {
                alike(here, there, n + 1) && n + 1 < there.len() && is_quote(there[n + 1])
            }
        }),
{
    let gg = encode_utf8(g);
    let n = gg.len() as int;
    let here = code.skip(site.start);
    let text = site_text(g, code, site, maps);
    let there = text + rewritten_from(g, code, maps, site.end);
    lemma_site_bounds(g, code, site.start);
    assert(forall|j: int| 0 <= j < text.len() ==> #[trigger] there[j] == text[j]);
    if lookup(maps, site_name(code, site)) is Some {
        let found = code.subrange(site.start, site.start + n);
        assert(forall|j: int| 0 <= j < n ==> #[trigger] here[j] == found[j]);
        assert(forall|j: int| 0 <= j < n ==> #[trigger] text[j] == gg[j]);
        assert(text[n] == 0x28 && text[n + 1] == 0x27);
    }
}

/// The same, of all that is rewritten from `from` on and of a place before it.
#[verifier::rlimit(60)]
pub proof fn lemma_no_new_site_before(
    f: Seq<char>,
    g: Seq<char>,
    code: Seq<u8>,
    maps: Seq<Map<Seq<char>, Seq<char>>>,
    from: int,
    p: Seq<u8>,
    q: Seq<u8>,
)
    requires
        no_quotes(encode_utf8(f)),
        no_quotes(encode_utf8(g)),
        encode_utf8(f).len() <= encode_utf8(g).len() || !encode_utf8(f).contains(0x28),
        0 <= from <= code.len(),
        1 <= p.len() == q.len(),
        alike(p, q, p.len() as int),
        site_at(f, p + code.skip(from), 0) is None,
    ensures
        site_at(f, q + rewritten_from(g, code, maps, from), 0) is None,
{
    let c = p + code.skip(from);
    let out = rewritten_from(g, code, maps, from);
    let d = q + out;
    let sites = call_sites(g, code, from);
    lemma_first_site(g, code, from);
    if sites.len() == 0 {
        lemma_gap(g, code, maps, from, code.len() as int);
        assert(out =~= code.skip(from));
        assert(alike(d, c, d.len() as int));
        lemma_site_bounds(f, d, 0);
        if site_at(f, d, 0) is Some {
            lemma_site_local(f, d, c, d.len() as int);
        }
    } else {
        let site = sites[0];
        let gap = code.subrange(from, site.start);
        let text = site_text(g, code, site, maps);
        let tail = rewritten_from(g, code, maps, site.end);
        let k = p.len() + gap.len();
        let n = encode_utf8(g).len() as int;
        lemma_gap(g, code, maps, from, site.start);
        assert(out == gap + (text + tail));
        lemma_site_bounds(g, code, site.start);
        assert(c.skip(p.len() as int) =~= code.skip(from));
        lemma_site_skip(g, c, p.len() as int, gap.len() as int);
        lemma_site_skip(g, code, from, gap.len() as int);
        assert(site_at(g, c, k as int) is Some);
        let moved = site_at(g, c, k as int).unwrap();
        assert(moved.end == k + (site.end - site.start));
        let here = code.skip(site.start);
        let there = text + tail;
        assert(code.skip(from) =~= gap + here);
        lemma_rewritten_head(g, code, maps, site);
        if lookup(maps, site_name(code, site)) is None {
            lemma_alike_concat(gap, gap, here, there, site.end - site.start);
            lemma_alike_concat(p, q, gap + here, gap + there, gap.len() + (site.end - site.start));
        } else {
            lemma_alike_concat(gap, gap, here, there, n + 1);
            lemma_alike_concat(p, q, gap + here, gap + there, gap.len() + n + 1);
            assert(d[k + n + 1] == (gap + there)[gap.len() + n + 1]);
            assert((gap + there)[gap.len() + n + 1] == there[n + 1]);
        }
        lemma_no_new_site(f, g, c, d, k as int);
    }
}

/// The text of a call is a call.
pub proof fn lemma_call_text(func: Seq<char>, name: Seq<char>, rest: Seq<u8>)
    requires
        quote_free(func),
        quote_free(name),
    ensures
        ({
            let text = call_text(func, name);
            &&& site_at(func, text + rest, 0) matches Some(site)
            &&& site.end == text.len()
            &&& site_name(text + rest, site) == name
        }),
{
    let ff = encode_utf8(func);
    let nn = encode_utf8(name);
    let code = call_text(func, name) + rest;
    let n = ff.len() as int;
    lemma_quote_free(func);
    lemma_quote_free(name);
    assert(forall|j: int| 0 <= j < n ==> #[trigger] code[j] == ff[j]);
    assert(forall|j: int| n + 2 <= j < n + 2 + nn.len() ==> #[trigger] code[j] == nn[j - n - 2]);
    assert(code[n] == 0x28 && code[n + 1] == 0x27 && code[n + 2 + nn.len()] == 0x27);
    lemma_next_quote_is(code, n + 1, n + 1);
    lemma_next_quote_is(code, n + 2, n + 2 + nn.len());
    assert(code.subrange(0, n) =~= ff);
    assert(code.subrange(n + 1, n + 1) =~= Seq::<u8>::empty());
    assert(code.subrange(n + 2, n + 2 + nn.len()) =~= nn);
    encode_utf8_valid_utf8(name);
    encode_utf8_decode_utf8(name);
}

pub proof fn lemma_lookup_quote_free(maps: Seq<Map<Seq<char>, Seq<char>>>, name: Seq<char>)
    requires
        quote_free_maps(maps),
    ensures
        lookup(maps, name) matches Some(new) ==> quote_free(new),
    decreases maps.len(),
{
    if maps.len() > 0 && !maps[0].contains_key(name) {
        let rest = maps.drop_first();
        assert forall|i: int, name: Seq<char>|
            0 <= i < rest.len() && #[trigger] rest[i].contains_key(name) implies quote_free(
            rest[i][name],
        ) by {
            assert(rest[i] == maps[i + 1]);
        }
        lemma_lookup_quote_free(rest, name);
    }
}

pub proof fn lemma_rewrite_renames_from(
    func: Seq<char>,
    code: Seq<u8>,
    maps: Seq<Map<Seq<char>, Seq<char>>>,
    from: int,
)
    requires
        quote_free(func),
        quote_free_maps(maps),
        0 <= from <= code.len(),
    ensures
        names_from(func, rewritten_from(func, code, maps, from), 0) == names_from(
            func,
            code,
            from,
        ).map_values(|name: Seq<char>| renamed(maps, name)),
    decreases code.len() - from,
{
    let new = |name: Seq<char>| renamed(maps, name);
    let out = rewritten_from(func, code, maps, from);
    if from < code.len() {
        lemma_quote_free(func);
        lemma_site_bounds(func, code, from);
        lemma_names_step(func, code, from);
        match site_at(func, code, from) {
            Some(site) => {
                let text = site_text(func, code, site, maps);
                lemma_rewrite_renames_from(func, code, maps, site.end);
                lemma_call_stays(func, code, maps, from);
                lemma_names_step(func, out, 0);
                lemma_names_skip(func, out, text.len() as int, 0);
                assert(names_from(func, out, 0) =~= names_from(func, code, from).map_values(new));
            },
            None => {
                lemma_rewrite_renames_from(func, code, maps, from + 1);
                lemma_no_call_stays(func, code, maps, from);
                lemma_names_step(func, out, 0);
                lemma_names_skip(func, out, 1, 0);
            },
        }
    } else {
        assert(names_from(func, out, 0) =~= names_from(func, code, from).map_values(new));
    }
}

/// What a scan finds in a rewritten script: the calls of the function are those of the script
/// before, in the same order, and each passes the name that its old name was replaced by, or its
/// old name where no table knew it.
pub proof fn law_rewrite_renames(
    func: Seq<char>,
    code: Seq<u8>,
    maps: Seq<Map<Seq<char>, Seq<char>>>,
)
    requires
        quote_free(func),
        quote_free_maps(maps),
    ensures
        names_in(func, rewritten(func, code, maps)) == names_in(func, code).map_values(
            |name: Seq<char>| renamed(maps, name),
        ),
{
    lemma_rewrite_renames_from(func, code, maps, 0);
}

/// A script of which no name is known stays as it is, byte for byte.
pub proof fn law_unknown_names_stay(
    func: Seq<char>,
    code: Seq<u8>,
    maps: Seq<Map<Seq<char>, Seq<char>>>,
)
    requires
        forall|k: int|
            0 <= k < names_in(func, code).len() ==> lookup(
                maps,
                #[trigger] names_in(func, code)[k],
            ) is None,
    ensures
        rewritten(func, code, maps) == code,
{
    assert forall|k: int| 0 <= k < call_sites(func, code, 0).len() implies lookup(
        maps,
        site_name(code, #[trigger] call_sites(func, code, 0)[k]),
    ) is None by {
        assert(lookup(maps, names_in(func, code)[k]) is None);
    }
    lemma_unknown_from(func, code, maps, 0);
    assert(code.skip(0) =~= code);
}

proof fn lemma_unknown_from(
    func: Seq<char>,
    code: Seq<u8>,
    maps: Seq<Map<Seq<char>, Seq<char>>>,
    from: int,
)
    requires
        0 <= from <= code.len(),
        forall|k: int|
            0 <= k < call_sites(func, code, from).len() ==> lookup(
                maps,
                site_name(code, #[trigger] call_sites(func, code, from)[k]),
            ) is None,
    ensures
        rewritten_from(func, code, maps, from) == code.skip(from),
    decreases code.len() - from,
{
    if from < code.len() {
        lemma_site_bounds(func, code, from);
        match site_at(func, code, from) {
            Some(site) => {
                let all = call_sites(func, code, from);
                let rest = call_sites(func, code, site.end);
                assert(all =~= seq![site] + rest);
                assert(all[0] == site);
                assert forall|k: int| 0 <= k < rest.len() implies lookup(
                    maps,
                    site_name(code, #[trigger] rest[k]),
                ) is None by {
                    assert(rest[k] == all[k + 1]);
                }
                lemma_unknown_from(func, code, maps, site.end);
                assert(code.subrange(from, site.end) + code.skip(site.end) =~= code.skip(from));
            },
            None => {
                lemma_unknown_from(func, code, maps, from + 1);
                assert(seq![code[from]] + code.skip(from + 1) =~= code.skip(from));
            },
        }
    } else {
        assert(code.skip(from) =~= Seq::empty());
    }
}

/// What stands in `code` outside the calls of a function, from position `from` on.
pub open spec fn outside(func: Seq<char>, code: Seq<u8>, from: int) -> Seq<u8>
    decreases code.len() - from,
{
    if from >= code.len() {
        Seq::empty()
    } else {
        match site_at(func, code, from) {
            Some(site) => {
                proof {
                    lemma_site_bounds(func, code, from);
                }
                outside(func, code, site.end)
            },
            None => seq![code[from]] + outside(func, code, from + 1),
        }
    }
}

proof fn lemma_outside_skip(func: Seq<char>, code: Seq<u8>, k: int, i: int)
    requires
        0 <= k <= code.len(),
        0 <= i,
    ensures
        outside(func, code, k + i) == outside(func, code.skip(k), i),
    decreases code.len() - k - i,
{
    let rest = code.skip(k);
    if k + i < code.len() {
        lemma_site_skip(func, code, k, i);
        lemma_site_bounds(func, code, k + i);
        lemma_site_bounds(func, rest, i);
        match site_at(func, rest, i) {
            Some(site) => {
                lemma_outside_skip(func, code, k, site.end);
            },
            None => {
                lemma_outside_skip(func, code, k, i + 1);
            },
        }
    }
}

/// Where a call of the function begins, a call begins in the rewritten script, and ends where its
/// text ends.
proof fn lemma_call_stays(
    func: Seq<char>,
    code: Seq<u8>,
    maps: Seq<Map<Seq<char>, Seq<char>>>,
    from: int,
)
    requires
        quote_free(func),
        quote_free_maps(maps),
        0 <= from < code.len(),
        site_at(func, code, from) is Some,
    ensures
        ({
            let site = site_at(func, code, from).unwrap();
            let text = site_text(func, code, site, maps);
            let out = rewritten_from(func, code, maps, from);
            &&& site_at(func, out, 0) matches Some(other)
            &&& other.start == 0
            &&& other.end == text.len()
            &&& text.len() > 0
            &&& site_name(out, other) == renamed(maps, site_name(code, site))
            &&& out.skip(text.len() as int) == rewritten_from(func, code, maps, site.end)
            &&& out.take(text.len() as int) == text
        }),
{
    let site = site_at(func, code, from).unwrap();
    let text = site_text(func, code, site, maps);
    let rest = rewritten_from(func, code, maps, site.end);
    let out = text + rest;
    let name = site_name(code, site);
    lemma_quote_free(func);
    lemma_site_bounds(func, code, from);
    lemma_lookup_quote_free(maps, name);
    if lookup(maps, name) is Some {
        lemma_call_text(func, lookup(maps, name).unwrap(), rest);
    } else {
        lemma_site_skip(func, code, from, 0);
        assert(alike(code.skip(from), out, text.len() as int));
        lemma_site_local(func, code.skip(from), out, text.len() as int);
    }
    lemma_site_bounds(func, out, 0);
    assert(out.skip(text.len() as int) =~= rest);
    assert(out.take(text.len() as int) =~= text);
}

/// Where no call of the function begins, none begins in the rewritten script.
proof fn lemma_no_call_stays(
    func: Seq<char>,
    code: Seq<u8>,
    maps: Seq<Map<Seq<char>, Seq<char>>>,
    from: int,
)
    requires
        quote_free(func),
        0 <= from < code.len(),
        site_at(func, code, from) is None,
    ensures
        ({
            let out = rewritten_from(func, code, maps, from);
            &&& site_at(func, out, 0) is None
            &&& out.len() > 0
            &&& out[0] == code[from]
            &&& out.skip(1) == rewritten_from(func, code, maps, from + 1)
        }),
{
    let out = rewritten_from(func, code, maps, from);
    let head = seq![code[from]];
    let rest = rewritten_from(func, code, maps, from + 1);
    lemma_quote_free(func);
    lemma_site_skip(func, code, from, 0);
    assert(head + code.skip(from + 1) =~= code.skip(from));
    lemma_no_new_site_before(func, func, code, maps, from + 1, head, head);
    assert(out.skip(1) =~= rest);
}

/// What stands outside the calls of the function is kept, byte for byte.
pub proof fn law_rest_stays(
    func: Seq<char>,
    code: Seq<u8>,
    maps: Seq<Map<Seq<char>, Seq<char>>>,
)
    requires
        quote_free(func),
        quote_free_maps(maps),
    ensures
        outside(func, rewritten(func, code, maps), 0) == outside(func, code, 0),
{
    lemma_rest_stays_from(func, code, maps, 0);
}

proof fn lemma_rest_stays_from(
    func: Seq<char>,
    code: Seq<u8>,
    maps: Seq<Map<Seq<char>, Seq<char>>>,
    from: int,
)
    requires
        quote_free(func),
        quote_free_maps(maps),
        0 <= from <= code.len(),
    ensures
        outside(func, rewritten_from(func, code, maps, from), 0) == outside(func, code, from),
    decreases code.len() - from,
{
    let out = rewritten_from(func, code, maps, from);
    if from < code.len() {
        lemma_site_bounds(func, code, from);
        match site_at(func, code, from) {
            Some(site) => {
                let text = site_text(func, code, site, maps);
                lemma_call_stays(func, code, maps, from);
                lemma_rest_stays_from(func, code, maps, site.end);
                lemma_outside_skip(func, out, text.len() as int, 0);
            },
            None => {
                lemma_no_call_stays(func, code, maps, from);
                lemma_rest_stays_from(func, code, maps, from + 1);
                lemma_outside_skip(func, out, 1, 0);
            },
        }
    }
}

proof fn lemma_rewritten_skip(
    func: Seq<char>,
    code: Seq<u8>,
    maps: Seq<Map<Seq<char>, Seq<char>>>,
    k: int,
    i: int,
)
    requires
        0 <= k <= code.len(),
        0 <= i,
    ensures
        rewritten_from(func, code, maps, k + i) == rewritten_from(func, code.skip(k), maps, i),
    decreases code.len() - k - i,
{
    let rest = code.skip(k);
    if k + i < code.len() {
        lemma_site_skip(func, code, k, i);
        lemma_site_bounds(func, code, k + i);
        lemma_site_bounds(func, rest, i);
        match site_at(func, rest, i) {
            Some(site) => {
                lemma_rewritten_skip(func, code, maps, k, site.end);
                let own = site_at(func, code, k + i).unwrap();
                assert(code.subrange(own.start, own.end) =~= rest.subrange(site.start, site.end));
            },
            None => {
                lemma_rewritten_skip(func, code, maps, k, i + 1);
            },
        }
    }
}

/// Rewriting a script again changes nothing, as long as no new name is itself replaced by another.
pub proof fn law_rewriting_again_changes_nothing(
    func: Seq<char>,
    code: Seq<u8>,
    maps: Seq<Map<Seq<char>, Seq<char>>>,
)
    requires
        quote_free(func),
        quote_free_maps(maps),
        forall|name: Seq<char>| #[trigger]
            renamed(maps, renamed(maps, name)) == renamed(maps, name),
    ensures
        rewritten(func, rewritten(func, code, maps), maps) == rewritten(func, code, maps),
{
    lemma_again_from(func, code, maps, 0);
}

proof fn lemma_again_from(
    func: Seq<char>,
    code: Seq<u8>,
    maps: Seq<Map<Seq<char>, Seq<char>>>,
    from: int,
)
    requires
        quote_free(func),
        quote_free_maps(maps),
        forall|name: Seq<char>| #[trigger]
            renamed(maps, renamed(maps, name)) == renamed(maps, name),
        0 <= from <= code.len(),
    ensures
        rewritten_from(func, rewritten_from(func, code, maps, from), maps, 0) == rewritten_from(
            func,
            code,
            maps,
            from,
        ),
    decreases code.len() - from,
{
    let out = rewritten_from(func, code, maps, from);
    if from < code.len() {
        lemma_site_bounds(func, code, from);
        match site_at(func, code, from) {
            Some(site) => {
                let text = site_text(func, code, site, maps);
                let m = text.len() as int;
                let name = site_name(code, site);
                lemma_call_stays(func, code, maps, from);
                let other = site_at(func, out, 0).unwrap();
                lemma_again_from(func, code, maps, site.end);
                lemma_rewritten_skip(func, out, maps, m, 0);
                let again = site_text(func, out, other, maps);
                assert(out.subrange(0, m) =~= out.take(m));
                assert(renamed(maps, renamed(maps, name)) == renamed(maps, name));
                assert(again == text);
                assert(again + out.skip(m) =~= out);
            },
            None => {
                lemma_no_call_stays(func, code, maps, from);
                lemma_again_from(func, code, maps, from + 1);
                lemma_rewritten_skip(func, out, maps, 1, 0);
                assert(seq![out[0]] + out.skip(1) =~= out);
            },
        }
    }
}

/// A script without calls of a function is not rewritten.
pub proof fn law_nothing_to_rewrite(
    func: Seq<char>,
    code: Seq<u8>,
    maps: Seq<Map<Seq<char>, Seq<char>>>,
)
    requires
        forall|i: int| 0 <= i < code.len() ==> #[trigger] site_at(func, code, i) is None,
    ensures
        rewritten(func, code, maps) == code,
{
    lemma_gap(func, code, maps, 0, code.len() as int);
    assert(code.subrange(0, code.len() as int) + Seq::<u8>::empty() =~= code);
}

/// A script is rewritten call by call. What stands before the first call stays. At the call, a name
/// that one of the mappings knows gives way to what the first of them says: the function, a
/// parenthesis, and the new name in single quotation marks. A call with any other name stays as it
/// is. What follows is rewritten in the same way.
pub proof fn law_rewritten_call(
    func: Seq<char>,
    a: Seq<u8>,
    blank: Seq<u8>,
    open: u8,
    name: Seq<char>,
    close: u8,
    b: Seq<u8>,
    maps: Seq<Map<Seq<char>, Seq<char>>>,
)
    requires
        open == 0x22 || open == 0x27,
        close == 0x22 || close == 0x27,
        is_blank(blank),
        quote_free(name),
        ({
            let call = encode_utf8(func) + seq![0x28u8] + blank + seq![open] + encode_utf8(name)
                + seq![close];
            forall|i: int|
                0 <= i < a.len() ==> #[trigger] site_at(func, a + call + b, i) is None
        }),
    ensures
        ({
            let call = encode_utf8(func) + seq![0x28u8] + blank + seq![open] + encode_utf8(name)
                + seq![close];
            &&& (forall|m: int|
                0 <= m < maps.len() ==> !(#[trigger] maps[m]).contains_key(name)) ==> rewritten(
                func,
                a + call + b,
                maps,
            ) == a + call + rewritten(func, b, maps)
            &&& forall|m: int|
                0 <= m < maps.len() && (#[trigger] maps[m]).contains_key(name) && (forall|j: int|
                    0 <= j < m ==> !(#[trigger] maps[j]).contains_key(name)) ==> rewritten(
                    func,
                    a + call + b,
                    maps,
                ) == a + (encode_utf8(func) + encode_utf8("('"@) + encode_utf8(maps[m][name])
                    + encode_utf8("'"@)) + rewritten(func, b, maps)
        }),
{
    let call = encode_utf8(func) + seq![0x28u8] + blank + seq![open] + encode_utf8(name)
        + seq![close];
    lemma_call_between(func, a, blank, open, name, close, b);
    lemma_rewritten_at(func, a, call, b, name, maps);
    law_lookup(maps, name);
    assert forall|m: int|
        0 <= m < maps.len() && (#[trigger] maps[m]).contains_key(name) && (forall|j: int|
            0 <= j < m ==> !(#[trigger] maps[j]).contains_key(name)) implies rewritten(
        func,
        a + call + b,
        maps,
    ) == a + (encode_utf8(func) + encode_utf8("('"@) + encode_utf8(maps[m][name]) + encode_utf8(
        "'"@,
    )) + rewritten(func, b, maps) by {
        assert(lookup(maps, name) == Some(maps[m][name]));
    }
}

/// What becomes of a script up to its first call and of that call.
proof fn lemma_rewritten_at(
    func: Seq<char>,
    a: Seq<u8>,
    call: Seq<u8>,
    b: Seq<u8>,
    name: Seq<char>,
    maps: Seq<Map<Seq<char>, Seq<char>>>,
)
    requires
        forall|i: int| 0 <= i < a.len() ==> #[trigger] site_at(func, a + call + b, i) is None,
        site_at(func, a + call + b, a.len() as int) matches Some(site) && site.start == a.len()
            && site.end == a.len() + call.len() && site_name(a + call + b, site) == name,
    ensures
        rewritten(func, a + call + b, maps) == a + (match lookup(maps, name) {
            Some(new) => encode_utf8(func) + encode_utf8("('"@) + encode_utf8(new) + encode_utf8(
                "'"@,
            ),
            None => call,
        }) + rewritten(func, b, maps),
{
    let code = a + call + b;
    let at = a.len() as int;
    let site = site_at(func, code, at).unwrap();
    lemma_site_bounds(func, code, at);
    lemma_gap(func, code, maps, 0, at);
    assert(code.subrange(0, at) =~= a);
    lemma_rewritten_skip(func, code, maps, site.end, 0);
    assert(code.skip(site.end) =~= b);
    assert(code.subrange(site.start, site.end) =~= call);
    lemma_marks();
    let text = site_text(func, code, site, maps);
    let rest = rewritten(func, b, maps);
    assert(rewritten_from(func, code, maps, at) == text + rest);
    assert(a + (text + rest) =~= a + text + rest);
}

/// A call that stands between other text.
proof fn lemma_call_between(
    func: Seq<char>,
    a: Seq<u8>,
    blank: Seq<u8>,
    open: u8,
    name: Seq<char>,
    close: u8,
    b: Seq<u8>,
)
    requires
        is_quote(open),
        is_quote(close),
        is_blank(blank),
        quote_free(name),
    ensures
        ({
            let call = encode_utf8(func) + seq![0x28u8] + blank + seq![open] + encode_utf8(name)
                + seq![close];
            let code = a + call + b;
            &&& site_at(func, code, a.len() as int) matches Some(site)
            &&& site.start == a.len()
            &&& site.end == a.len() + call.len()
            &&& site_name(code, site) == name
        }),
{
    let ff = encode_utf8(func);
    let nn = encode_utf8(name);
    let n = ff.len() as int;
    let call = ff + seq![0x28u8] + blank + seq![open] + nn + seq![close];
    let code = a + call + b;
    let at = a.len() as int;
    let paren = at + n;
    let first = paren + 1 + blank.len();
    let last = first + 1 + nn.len();
    lemma_quote_free(name);
    lemma_blank_quotes(blank);
    assert(code.subrange(at, paren) =~= ff);
    assert(code[paren] == 0x28);
    assert(code.subrange(paren + 1, first) =~= blank);
    assert(code[first] == open);
    assert(code.subrange(first + 1, last) =~= nn);
    assert(code[last] == close);
    assert forall|j: int| paren + 1 <= j < first implies !is_quote(#[trigger] code[j]) by {
        assert(code[j] == blank[j - paren - 1]);
    }
    assert forall|j: int| first + 1 <= j < last implies !is_quote(#[trigger] code[j]) by {
        assert(code[j] == nn[j - first - 1]);
    }
    lemma_next_quote_is(code, paren + 1, first);
    lemma_next_quote_is(code, first + 1, last);
    encode_utf8_valid_utf8(name);
    encode_utf8_decode_utf8(name);
    let site = Site { start: at, name_start: first + 1, name_end: last, end: last + 1 };
    assert(site_at(func, code, at) == Some(site));
}

/// White space holds no quotation mark.
proof fn lemma_blank_quotes(bytes: Seq<u8>)
    requires
        is_blank(bytes),
    ensures
        no_quotes(bytes),
{
    let chars = decode_utf8(bytes);
    decode_utf8_encode_utf8(bytes);
    assert forall|i: int| 0 <= i < chars.len() implies #[trigger] chars[i] != '"' && chars[i]
        != '\'' by {
        assert(is_white_space(chars[i]));
    }
    lemma_quote_free(chars);
}

/// A name is looked up from the first mapping to the last; the first that knows it decides.
pub proof fn law_lookup(maps: Seq<Map<Seq<char>, Seq<char>>>, name: Seq<char>)
    ensures
        (forall|m: int| 0 <= m < maps.len() ==> !(#[trigger] maps[m]).contains_key(name))
            ==> lookup(maps, name) is None,
        forall|m: int|
            0 <= m < maps.len() && (#[trigger] maps[m]).contains_key(name) && (forall|j: int|
                0 <= j < m ==> !(#[trigger] maps[j]).contains_key(name)) ==> lookup(maps, name)
                == Some(maps[m][name]),
    decreases maps.len(),
{
    if maps.len() > 0 {
        let rest = maps.drop_first();
        law_lookup(rest, name);
        if !maps[0].contains_key(name) {
            if forall|m: int| 0 <= m < maps.len() ==> !(#[trigger] maps[m]).contains_key(name) {
                assert forall|m: int| 0 <= m < rest.len() implies !(
                #[trigger] rest[m]).contains_key(name) by {
                    assert(rest[m] == maps[m + 1]);
                }
            }
            assert forall|m: int|
                0 <= m < maps.len() && (#[trigger] maps[m]).contains_key(name) && (forall|j: int|
                    0 <= j < m ==> !(#[trigger] maps[j]).contains_key(name)) implies lookup(
                maps,
                name,
            ) == Some(maps[m][name]) by {
                assert(rest[m - 1] == maps[m]);
                assert forall|j: int| 0 <= j < m - 1 implies !(#[trigger] rest[j]).contains_key(
                    name,
                ) by {
                    assert(rest[j] == maps[j + 1]);
                }
            }
        } else {
            assert forall|m: int|
                0 <= m < maps.len() && (#[trigger] maps[m]).contains_key(name) && (forall|j: int|
                    0 <= j < m ==> !(#[trigger] maps[j]).contains_key(name)) implies lookup(
                maps,
                name,
            ) == Some(maps[m][name]) by {
                if m > 0 {
                    assert(!maps[0].contains_key(name));
                }
            }
        }
    }
}

/// Two lists make a mapping in lock-step: an old name leads to the new name at the place where it
/// stands first, as far as there is one.
pub proof fn law_paired(old: Seq<Seq<char>>, new: Seq<Seq<char>>, i: int)
    requires
        0 <= i < old.len(),
        forall|j: int| 0 <= j < i ==> #[trigger] old[j] != old[i],
    ensures
        paired(old, new).contains_key(old[i]) <==> i < new.len(),
        i < new.len() ==> paired(old, new)[old[i]] == new[i],
{
    lemma_position(old, old[i]);
    assert(position(old, old[i]) == i);
    let front = old.take(pairs(old, new));
    if i < new.len() {
        assert(front[i] == old[i]);
    }
    if front.contains(old[i]) {
        let k = choose|k: int| 0 <= k < front.len() && front[k] == old[i];
        assert(old[k] == old[i]);
    }
}

/// A mapping of two lists knows the names of the first that have something at their place in the
/// second, and no others.
pub proof fn law_paired_names(old: Seq<Seq<char>>, new: Seq<Seq<char>>, name: Seq<char>)
    ensures
        paired(old, new).contains_key(name) <==> exists|j: int|
            0 <= j < old.len() && j < new.len() && #[trigger] old[j] == name,
{
    let front = old.take(pairs(old, new));
    if front.contains(name) {
        let k = choose|k: int| 0 <= k < front.len() && front[k] == name;
        assert(old[k] == name);
    }
    if exists|j: int| 0 <= j < old.len() && j < new.len() && #[trigger] old[j] == name {
        let j = choose|j: int| 0 <= j < old.len() && j < new.len() && #[trigger] old[j] == name;
        assert(front[j] == name);
    }
}

/// A call begins at a place exactly where the function stands there, a parenthesis, white space,
/// and a name in UTF-8 between the next two quotation marks.
pub proof fn law_call_at(func: Seq<char>, code: Seq<u8>, i: int, open: int, close: int)
    requires
        0 <= i,
    ensures
        ({
            let paren = i + encode_utf8(func).len();
            site_at(func, code, i) == Some(
                Site { start: i, name_start: open + 1, name_end: close, end: close + 1 },
            ) <==> {
                &&& paren < open < close < code.len()
                &&& code.subrange(i, paren) == encode_utf8(func)
                &&& code[paren] == 0x28
                &&& is_blank(code.subrange(paren + 1, open))
                &&& code[open] == 0x22 || code[open] == 0x27
                &&& code[close] == 0x22 || code[close] == 0x27
                &&& forall|j: int|
                    paren < j < close && j != open ==> #[trigger] code[j] != 0x22 && code[j] != 0x27
                &&& valid_utf8(code.subrange(open + 1, close))
            }
        }),
        site_at(func, code, i) matches Some(site) ==> site.start == i && site.end == site.name_end
            + 1,
{
    let paren = i + encode_utf8(func).len();
    let q = next_quote(code, paren + 1);
    let r = next_quote(code, q + 1);
    lemma_next_quote(code, paren + 1);
    lemma_next_quote(code, q + 1);
    let site = Site { start: i, name_start: open + 1, name_end: close, end: close + 1 };
    if site_at(func, code, i) == Some(site) {
        assert(q == open && r == close);
        assert forall|j: int| paren < j < close && j != open implies #[trigger] code[j] != 0x22
            && code[j] != 0x27 by {
            assert(!is_quote(code[j]));
        }
    }
    if paren < open < close < code.len() && (code[open] == 0x22 || code[open] == 0x27) && (
    code[close] == 0x22 || code[close] == 0x27) && (forall|j: int|
        paren < j < close && j != open ==> #[trigger] code[j] != 0x22 && code[j] != 0x27) {
        lemma_next_quote_is(code, paren + 1, open);
        lemma_next_quote_is(code, open + 1, close);
    }
}

/// The calls that a scan finds begin where calls begin, come one after the other, and leave out
/// none that does not begin inside one before it. Their names are those that stand between their
/// quotation marks.
pub proof fn law_calls_are_found(func: Seq<char>, code: Seq<u8>)
    ensures
        ({
            let sites = call_sites(func, code, 0);
            &&& forall|k: int|
                0 <= k < sites.len() ==> site_at(func, code, (#[trigger] sites[k]).start) == Some(
                    sites[k],
                )
            &&& forall|k: int, m: int|
                0 <= k < m < sites.len() ==> (#[trigger] sites[k]).end <= (
                #[trigger] sites[m]).start
            &&& forall|i: int|
                0 <= i < code.len() && #[trigger] site_at(func, code, i) is Some ==> exists|k: int|
                    0 <= k < sites.len() && (#[trigger] sites[k]).start <= i < sites[k].end
            &&& names_in(func, code).len() == sites.len()
            &&& forall|k: int|
                0 <= k < sites.len() ==> #[trigger] names_in(func, code)[k] == decode_utf8(
                    code.subrange(sites[k].name_start, sites[k].name_end),
                )
        }),
{
    lemma_calls_from(func, code, 0);
}

proof fn lemma_calls_from(func: Seq<char>, code: Seq<u8>, from: int)
    requires
        0 <= from,
    ensures
        ({
            let sites = call_sites(func, code, from);
            &&& forall|k: int|
                0 <= k < sites.len() ==> from <= (#[trigger] sites[k]).start && site_at(
                    func,
                    code,
                    sites[k].start,
                ) == Some(sites[k])
            &&& forall|k: int, m: int|
                0 <= k < m < sites.len() ==> (#[trigger] sites[k]).end <= (
                #[trigger] sites[m]).start
            &&& forall|i: int|
                from <= i < code.len() && #[trigger] site_at(func, code, i) is Some ==> exists|
                    k: int,
                |
                    0 <= k < sites.len() && (#[trigger] sites[k]).start <= i < sites[k].end
        }),
    decreases code.len() - from,
{
    let sites = call_sites(func, code, from);
    lemma_first_site(func, code, from);
    if sites.len() > 0 {
        let first = sites[0];
        let rest = call_sites(func, code, first.end);
        lemma_calls_from(func, code, first.end);
        assert(forall|k: int| 0 < k < sites.len() ==> #[trigger] sites[k] == rest[k - 1]) by {
            assert(forall|k: int|
                0 < k < sites.len() ==> #[trigger] sites[k] == sites.drop_first()[k - 1]);
        }
        assert forall|i: int|
            from <= i < code.len() && #[trigger] site_at(func, code, i) is Some implies exists|
            k: int,
        |
            0 <= k < sites.len() && (#[trigger] sites[k]).start <= i < sites[k].end by {
            if i < first.start {
                assert(site_at(func, code, i) is None);
            } else if i < first.end {
                assert(sites[0].start <= i < sites[0].end);
            } else {
                let k = choose|k: int|
                    0 <= k < rest.len() && (#[trigger] rest[k]).start <= i < rest[k].end;
                assert(sites[k + 1] == rest[k]);
            }
        }
    } else {
        assert forall|i: int|
            from <= i < code.len() && #[trigger] site_at(func, code, i) is Some implies exists|
            k: int,
        |
            0 <= k < sites.len() && (#[trigger] sites[k]).start <= i < sites[k].end by {
            assert(site_at(func, code, i) is None);
        }
    }
}

/// The expressions are made of the function's name, with a backslash before every character that
/// means something in an expression, and of what finds a parenthesis, white space and a name
/// between quotation marks of either kind.
pub proof fn law_patterns(func: Seq<char>)
    ensures
        ({
            let literal = func.map_values(
                |c: char|
                    if "\\.+*?()|[]{}^$#&-~"@.contains(c) {
                        seq!['\\', c]
                    } else {
                        seq![c]
                    },
            ).flatten();
            &&& scan_pattern(func) == "(?s)"@ + literal
                + "\\(\\s*['\"](?P<name>[^'\"]*)['\"]"@
            &&& call_pattern(func) == literal + "\\(\\s*[\"']([^\"']*)[\"']"@
        }),
{
    lemma_escaped(func);
}

proof fn lemma_meta(c: char)
    ensures
        is_meta(c) <==> "\\.+*?()|[]{}^$#&-~"@.contains(c),
{
    let all = "\\.+*?()|[]{}^$#&-~"@;
    reveal_strlit("\\.+*?()|[]{}^$#&-~");
    assert(all.len() == 18);
    if is_meta(c) {
        assert(all[0] == '\\' && all[1] == '.' && all[2] == '+' && all[3] == '*' && all[4] == '?'
            && all[5] == '(' && all[6] == ')' && all[7] == '|' && all[8] == '[' && all[9] == ']'
            && all[10] == '{' && all[11] == '}' && all[12] == '^' && all[13] == '$' && all[14]
            == '#' && all[15] == '&' && all[16] == '-' && all[17] == '~');
    }
}

proof fn lemma_escaped(text: Seq<char>)
    ensures
        escaped(text) == text.map_values(
            |c: char|
                if "\\.+*?()|[]{}^$#&-~"@.contains(c) {
                    seq!['\\', c]
                } else {
                    seq![c]
                },
        ).flatten(),
    decreases text.len(),
{
    let one = |c: char|
        if "\\.+*?()|[]{}^$#&-~"@.contains(c) {
            seq!['\\', c]
        } else {
            seq![c]
        };
    if text.len() > 0 {
        let front = text.drop_last();
        lemma_escaped(front);
        lemma_meta(text.last());
        assert(text.map_values(one) =~= front.map_values(one).push(one(text.last())));
        front.map_values(one).lemma_flatten_push(one(text.last()));
    }
}

/// Blank is what encodes characters with the Unicode property White_Space and no others.
pub proof fn law_blank(bytes: Seq<u8>)
    ensures
        is_blank(bytes) <==> valid_utf8(bytes) && forall|i: int|
            0 <= i < decode_utf8(bytes).len() ==> {
                let c = #[trigger] decode_utf8(bytes)[i];
                ||| '\u{9}' <= c <= '\u{d}'
                ||| c == '\u{20}'
                ||| c == '\u{85}'
                ||| c == '\u{a0}'
                ||| c == '\u{1680}'
                ||| '\u{2000}' <= c <= '\u{200a}'
                ||| c == '\u{2028}'
                ||| c == '\u{2029}'
                ||| c == '\u{202f}'
                ||| c == '\u{205f}'
                ||| c == '\u{3000}'
            },
{
}

} // verus!
