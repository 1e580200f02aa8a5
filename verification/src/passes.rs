//! A script is rewritten in several passes, one for each function. This module says what the
//! passes make of it together.
use crate::calls::{
    call_sites, is_quote, lemma_first_site, lemma_next_quote, lemma_site_bounds, lemma_sites,
    names_in, next_quote, site_at, site_name,
};
use crate::rewrite::{call_text, lemma_gap, lookup, rewritten, rewritten_from, site_text};
use crate::rewrite_laws::{
    alike, law_rewrite_renames, law_unknown_names_stay, lemma_call_text, lemma_names_skip,
    lemma_names_step, lemma_no_new_site_before, lemma_quote_free, lemma_site_local,
    lemma_site_skip, names_from, quote_free, renamed,
};
use crate::text::ends_with;
use vstd::prelude::*;
use vstd::utf8::*;

verus! {

/// One pass over a script: the function whose calls are rewritten, and the mappings that its
/// names are looked up in.
#[verifier::ext_equal]
pub struct Pass {
    pub func: Seq<char>,
    pub maps: Seq<Map<Seq<char>, Seq<char>>>,
}

/// What a script becomes when the passes are made one after the other.
pub open spec fn rewritten_all(passes: Seq<Pass>, code: Seq<u8>) -> Seq<u8>
    decreases passes.len(),
{
    if passes.len() == 0 {
        code
    } else {
        let before = rewritten_all(passes.drop_last(), code);
        rewritten(passes.last().func, before, passes.last().maps)
    }
}

/// A text without parentheses that open.
pub open spec fn paren_free(text: Seq<char>) -> bool {
    forall|i: int| 0 <= i < text.len() ==> #[trigger] text[i] != '('
}

/// Function names that cannot be mistaken for each other at a call: they hold neither quotation
/// marks nor parentheses, and none ends in another.
pub open spec fn distinguishable(funcs: Seq<Seq<char>>) -> bool {
    &&& forall|a: int|
        0 <= a < funcs.len() ==> quote_free(#[trigger] funcs[a]) && paren_free(funcs[a])
    &&& forall|a: int, b: int|
        0 <= a < funcs.len() && 0 <= b < funcs.len() && a != b ==> !ends_with(
            encode_utf8(#[trigger] funcs[a]),
            encode_utf8(#[trigger] funcs[b]),
        )
}

/// No call of one of the functions begins inside a call of another.
pub open spec fn separate(funcs: Seq<Seq<char>>, code: Seq<u8>) -> bool {
    separate_from(funcs, code, 0)
}

/// The same, of the calls that a scan finds from position `from` on.
pub open spec fn separate_from(funcs: Seq<Seq<char>>, code: Seq<u8>, from: int) -> bool {
    forall|a: int, b: int, k: int, j: int|
        0 <= a < funcs.len() && 0 <= b < funcs.len() && a != b && 0 <= k < call_sites(
            funcs[a],
            code,
            from,
        ).len() ==> {
            let site = #[trigger] call_sites(funcs[a], code, from)[k];
            site.start <= j < site.end ==> #[trigger] site_at(funcs[b], code, j) is None
        }
}

/// Mappings under which a new name makes no call of its own: it holds no quotation mark, and no
/// parenthesis unless it is the old name.
pub open spec fn harmless(maps: Seq<Map<Seq<char>, Seq<char>>>) -> bool {
    forall|i: int, name: Seq<char>|
        0 <= i < maps.len() && #[trigger] maps[i].contains_key(name) ==> {
            &&& quote_free(maps[i][name])
            &&& maps[i][name] == name || paren_free(maps[i][name])
        }
}

proof fn lemma_scalar_paren(c: char)
    ensures
        c != '(' ==> !encode_scalar(c as u32).contains(0x28),
{
    let s = c as u32;
    assert(c != '(' ==> s != 0x28);
    if has_width_1_encoding(s) {
        assert((s & 0x7F) as u8 == s) by (bit_vector)
            requires
                s <= 0x7f,
        ;
    } else {
        assert(forall|x: u8| #[trigger] (0xC0u8 | x) >= 0x80) by (bit_vector);
        assert(forall|x: u8| #[trigger] (0xE0u8 | x) >= 0x80) by (bit_vector);
        assert(forall|x: u8| #[trigger] (0xF0u8 | x) >= 0x80) by (bit_vector);
        assert(forall|x: u8| #[trigger] (0x80u8 | x) >= 0x80) by (bit_vector);
    }
}

proof fn lemma_paren_free(text: Seq<char>)
    requires
        paren_free(text),
    ensures
        !encode_utf8(text).contains(0x28),
    decreases text.len(),
{
    if text.len() > 0 {
        lemma_scalar_paren(text[0]);
        lemma_paren_free(text.drop_first());
        let head = encode_scalar(text[0] as u32);
        let rest = encode_utf8(text.drop_first());
        if (head + rest).contains(0x28) {
            let i = choose|i: int| 0 <= i < (head + rest).len() && (head + rest)[i] == 0x28;
            if i < head.len() {
                assert(head[i] == 0x28);
            } else {
                assert(rest[i - head.len()] == 0x28);
            }
        }
    }
}

proof fn lemma_lookup_harmless(maps: Seq<Map<Seq<char>, Seq<char>>>, name: Seq<char>)
    requires
        harmless(maps),
    ensures
        lookup(maps, name) matches Some(new) ==> quote_free(new) && (new == name || paren_free(
            new,
        )),
    decreases maps.len(),
{
    if maps.len() > 0 && !maps[0].contains_key(name) {
        let rest = maps.drop_first();
        assert forall|i: int, name: Seq<char>|
            0 <= i < rest.len() && #[trigger] rest[i].contains_key(name) implies quote_free(
            rest[i][name],
        ) && (rest[i][name] == name || paren_free(rest[i][name])) by {
            assert(rest[i] == maps[i + 1]);
        }
        lemma_lookup_harmless(rest, name);
    }
}

/// In the text of a call of `g` no call of another function begins before the name.
proof fn lemma_call_text_head(f: Seq<char>, g: Seq<char>, name: Seq<char>, rest: Seq<u8>, j: int)
    requires
        quote_free(f),
        paren_free(f),
        quote_free(g),
        paren_free(g),
        0 <= j < encode_utf8(g).len() + 2,
        site_at(f, call_text(g, name) + rest, j) is Some,
    ensures
        ends_with(encode_utf8(g), encode_utf8(f)),
        j == encode_utf8(g).len() - encode_utf8(f).len(),
{
    let ff = encode_utf8(f);
    let gg = encode_utf8(g);
    let n = gg.len() as int;
    let text = call_text(g, name);
    let code = text + rest;
    lemma_quote_free(f);
    lemma_paren_free(f);
    lemma_paren_free(g);
    lemma_site_bounds(f, code, j);
    let paren = j + ff.len();
    assert(forall|i: int| 0 <= i < n ==> #[trigger] code[i] == gg[i]);
    assert(code[n] == 0x28 && code[n + 1] == 0x27);
    let found = code.subrange(j, paren);
    assert(found == ff);
    if paren < n {
        assert(gg[paren] == 0x28);
        assert(gg.contains(0x28));
    } else if paren > n + 1 {
        assert(found[n + 1 - j] == 0x27);
    } else if paren == n + 1 {
        assert(false);
    }
    assert(gg.skip(n - ff.len()) =~= ff) by {
        assert forall|i: int| 0 <= i < ff.len() implies gg.skip(n - ff.len())[i] == ff[i] by {
            assert(found[i] == code[j + i]);
        }
    }
}

/// Nor in the name, where it holds no parenthesis.
proof fn lemma_call_text_tail(f: Seq<char>, g: Seq<char>, name: Seq<char>, rest: Seq<u8>, j: int)
    requires
        quote_free(f),
        paren_free(name),
        encode_utf8(g).len() + 2 <= j < call_text(g, name).len(),
    ensures
        site_at(f, call_text(g, name) + rest, j) is None,
{
    let ff = encode_utf8(f);
    let gg = encode_utf8(g);
    let nn = encode_utf8(name);
    let n = gg.len() as int;
    let text = call_text(g, name);
    let code = text + rest;
    lemma_quote_free(f);
    lemma_paren_free(name);
    lemma_site_bounds(f, code, j);
    let paren = j + ff.len();
    let last = text.len() - 1;
    assert(code[last] == 0x27);
    assert(forall|i: int| n + 2 <= i < last ==> #[trigger] code[i] == nn[i - n - 2]);
    if site_at(f, code, j) is Some {
        let found = code.subrange(j, paren);
        assert(found == ff);
        if paren < last {
            assert(nn[paren - n - 2] == 0x28);
            assert(nn.contains(0x28));
        } else if paren > last {
            assert(found[last - j] == 0x27);
        }
    }
}

/// No call begins at `j` in the rewritten script if none began at `at` in the script before, where
/// what follows up to a place from which on the script is rewritten is alike.
proof fn lemma_still_none(
    f: Seq<char>,
    g: Seq<char>,
    code: Seq<u8>,
    maps: Seq<Map<Seq<char>, Seq<char>>>,
    at: int,
    to: int,
    out: Seq<u8>,
    j: int,
)
    requires
        quote_free(f),
        paren_free(f),
        quote_free(g),
        0 <= at < to <= code.len(),
        site_at(f, code, at) is None,
        0 <= j,
        out.len() == j + (to - at) + rewritten_from(g, code, maps, to).len(),
        out.skip(j + (to - at)) == rewritten_from(g, code, maps, to),
        alike(code.subrange(at, to), out.subrange(j, j + (to - at)), to - at),
    ensures
        site_at(f, out, j) is None,
{
    lemma_quote_free(f);
    lemma_quote_free(g);
    lemma_paren_free(f);
    let p = code.subrange(at, to);
    let q = out.subrange(j, j + (to - at));
    lemma_site_skip(f, code, at, 0);
    assert(code.skip(at) =~= p + code.skip(to));
    lemma_no_new_site_before(f, g, code, maps, to, p, q);
    lemma_site_skip(f, out, j, 0);
    assert(out.skip(j) =~= q + rewritten_from(g, code, maps, to));
}

/// In a rewritten call no call of another function begins.
proof fn lemma_inside(
    funcs: Seq<Seq<char>>,
    g: int,
    code: Seq<u8>,
    maps: Seq<Map<Seq<char>, Seq<char>>>,
    from: int,
    b: int,
    j: int,
)
    requires
        distinguishable(funcs),
        harmless(maps),
        0 <= g < funcs.len(),
        0 <= b < funcs.len(),
        b != g,
        0 <= from,
        site_at(funcs[g], code, from) matches Some(site) && {
            &&& 0 <= j < site_text(funcs[g], code, site, maps).len()
            &&& forall|i: int|
                from <= i < site.end ==> #[trigger] site_at(funcs[b], code, i) is None
        },
    ensures
        site_at(funcs[b], rewritten_from(funcs[g], code, maps, from), j) is None,
{
    let ff = funcs[b];
    let gg = funcs[g];
    let site = site_at(gg, code, from).unwrap();
    let text = site_text(gg, code, site, maps);
    let rest = rewritten_from(gg, code, maps, site.end);
    let out = text + rest;
    let name = site_name(code, site);
    lemma_site_bounds(gg, code, from);
    lemma_lookup_harmless(maps, name);
    assert(out.skip(text.len() as int) =~= rest);
    assert(from < code.len());
    if lookup(maps, name) is None {
        assert(site_at(ff, code, from + j) is None);
        assert(out.subrange(j, text.len() as int) =~= code.subrange(from + j, site.end));
        lemma_still_none(ff, gg, code, maps, from + j, site.end, out, j);
    } else {
        let new = lookup(maps, name).unwrap();
        let n = encode_utf8(gg).len() as int;
        if j < n + 2 {
            if site_at(ff, out, j) is Some {
                lemma_call_text_head(ff, gg, new, rest, j);
                assert(!ends_with(encode_utf8(funcs[g]), encode_utf8(funcs[b])));
            }
        } else if paren_free(new) {
            lemma_call_text_tail(ff, gg, new, rest, j);
        } else {
            let at = site.name_start + (j - n - 2);
            let nn = code.subrange(site.name_start, site.name_end);
            decode_utf8_encode_utf8(nn);
            assert(encode_utf8(new) == nn);
            assert(text.len() == n + 3 + nn.len());
            assert(site_at(ff, code, at) is None);
            let p = code.subrange(at, site.end);
            let q = out.subrange(j, text.len() as int);
            assert(alike(p, q, site.end - at)) by {
                lemma_site_marks(gg, code, from);
                assert forall|i: int| 0 <= i < site.end - at implies {
                    ||| #[trigger] p[i] == #[trigger] q[i]
                    ||| is_quote(p[i]) && is_quote(q[i])
                } by {
                    assert(q[i] == text[j + i]);
                    if j + i < text.len() - 1 {
                        assert(text[j + i] == nn[j + i - n - 2]);
                    }
                }
            }
            lemma_still_none(ff, gg, code, maps, at, site.end, out, j);
        }
    }
}

/// A call ends with a quotation mark.
proof fn lemma_site_marks(func: Seq<char>, code: Seq<u8>, i: int)
    ensures
        site_at(func, code, i) matches Some(site) ==> is_quote(code[site.name_end]),
{
    if site_at(func, code, i) is Some {
        let paren = i + encode_utf8(func).len();
        lemma_next_quote(code, paren + 1);
        lemma_next_quote(code, next_quote(code, paren + 1) + 1);
    }
}

/// The calls from `from` on, given that none begins before `to`.
proof fn lemma_sites_none(f: Seq<char>, code: Seq<u8>, from: int, to: int)
    requires
        0 <= from <= to <= code.len(),
        forall|i: int| from <= i < to ==> #[trigger] site_at(f, code, i) is None,
    ensures
        call_sites(f, code, from) == call_sites(f, code, to),
    decreases to - from,
{
    if from < to {
        assert(site_at(f, code, from) is None);
        lemma_sites_none(f, code, from + 1, to);
    }
}

/// The calls from a place on depend only on what follows.
proof fn lemma_sites_skip(f: Seq<char>, code: Seq<u8>, m: int, i: int)
    requires
        0 <= m <= code.len(),
        0 <= i,
    ensures
        call_sites(f, code, m + i).len() == call_sites(f, code.skip(m), i).len(),
        forall|k: int|
            0 <= k < call_sites(f, code, m + i).len() ==> {
                let site = #[trigger] call_sites(f, code, m + i)[k];
                let other = call_sites(f, code.skip(m), i)[k];
                site.start == m + other.start && site.end == m + other.end
            },
    decreases code.len() - m - i,
{
    let rest = code.skip(m);
    if m + i < code.len() {
        lemma_site_skip(f, code, m, i);
        lemma_site_bounds(f, code, m + i);
        lemma_site_bounds(f, rest, i);
        match site_at(f, rest, i) {
            Some(site) => {
                lemma_sites_skip(f, code, m, site.end);
                let all = call_sites(f, code, m + i);
                let others = call_sites(f, rest, i);
                let tail = call_sites(f, code, m + site.end);
                let other_tail = call_sites(f, rest, site.end);
                assert(all =~= seq![site_at(f, code, m + i).unwrap()] + tail);
                assert(others =~= seq![site] + other_tail);
                assert forall|k: int| 0 <= k < all.len() implies (#[trigger] all[k]).start == m
                    + others[k].start && all[k].end == m + others[k].end by {
                    if k > 0 {
                        assert(all[k] == tail[k - 1]);
                        assert(others[k] == other_tail[k - 1]);
                    }
                }
            },
            None => {
                lemma_sites_skip(f, code, m, i + 1);
            },
        }
    }
}

/// Past a call of one of the functions a script is as separate as before, and no call of another
/// begins in that call.
proof fn lemma_separate_step(funcs: Seq<Seq<char>>, code: Seq<u8>, from: int, a: int)
    requires
        0 <= from < code.len(),
        0 <= a < funcs.len(),
        separate_from(funcs, code, from),
        site_at(funcs[a], code, from) is Some,
    ensures
        separate_from(funcs, code, site_at(funcs[a], code, from).unwrap().end),
        forall|b: int, j: int|
            0 <= b < funcs.len() && b != a && from <= j < site_at(
                funcs[a],
                code,
                from,
            ).unwrap().end ==> #[trigger] site_at(funcs[b], code, j) is None,
{
    let site = site_at(funcs[a], code, from).unwrap();
    lemma_site_bounds(funcs[a], code, from);
    let all = call_sites(funcs[a], code, from);
    let tail = call_sites(funcs[a], code, site.end);
    assert(all =~= seq![site] + tail);
    assert(all[0] == site);
    assert forall|c: int, d: int, k: int, j: int|
        0 <= c < funcs.len() && 0 <= d < funcs.len() && c != d && 0 <= k < call_sites(
            funcs[c],
            code,
            site.end,
        ).len() implies {
        let other = #[trigger] call_sites(funcs[c], code, site.end)[k];
        other.start <= j < other.end ==> #[trigger] site_at(funcs[d], code, j) is None
    } by {
        if c == a {
            assert(all[k + 1] == tail[k]);
        } else {
            lemma_sites_none(funcs[c], code, from, site.end);
            assert(call_sites(funcs[c], code, from)[k] == call_sites(funcs[c], code, site.end)[k]);
        }
    }
}

/// A script is separate if what follows its head is, and no call begins in the head, or one that
/// is the whole of it and no call of another function.
proof fn lemma_separate_concat(funcs: Seq<Seq<char>>, x: Seq<u8>, r: Seq<u8>, a: int)
    requires
        separate(funcs, r),
        forall|b: int, j: int|
            0 <= b < funcs.len() && b != a && 0 <= j < x.len() ==> #[trigger] site_at(
                funcs[b],
                x + r,
                j,
            ) is None,
        0 <= a < funcs.len() ==> (site_at(funcs[a], x + r, 0) matches Some(site) && site.end
            == x.len()),
    ensures
        separate(funcs, x + r),
{
    let code = x + r;
    let m = x.len() as int;
    assert(code.skip(m) =~= r);
    assert forall|c: int, d: int, k: int, j: int|
        0 <= c < funcs.len() && 0 <= d < funcs.len() && c != d && 0 <= k < call_sites(
            funcs[c],
            code,
            0,
        ).len() implies {
        let site = #[trigger] call_sites(funcs[c], code, 0)[k];
        site.start <= j < site.end ==> #[trigger] site_at(funcs[d], code, j) is None
    } by {
        let all = call_sites(funcs[c], code, 0);
        let tail = call_sites(funcs[c], code, m);
        lemma_sites_skip(funcs[c], code, m, 0);
        lemma_first_site(funcs[c], code, 0);
        lemma_sites(funcs[c], code, 0);
        if c == a {
            let site = site_at(funcs[c], code, 0).unwrap();
            lemma_site_bounds(funcs[c], code, 0);
            assert(all =~= seq![site] + tail);
            if k > 0 {
                assert(all[k] == tail[k - 1]);
                lemma_separate_tail(funcs, code, m, c, d, k - 1, j);
            }
        } else {
            lemma_sites_none(funcs[c], code, 0, m);
            lemma_separate_tail(funcs, code, m, c, d, k, j);
        }
    }
}

proof fn lemma_separate_tail(
    funcs: Seq<Seq<char>>,
    code: Seq<u8>,
    m: int,
    c: int,
    d: int,
    k: int,
    j: int,
)
    requires
        0 <= m <= code.len(),
        separate(funcs, code.skip(m)),
        0 <= c < funcs.len(),
        0 <= d < funcs.len(),
        c != d,
        0 <= k < call_sites(funcs[c], code, m).len(),
    ensures
        ({
            let site = call_sites(funcs[c], code, m)[k];
            site.start <= j < site.end ==> site_at(funcs[d], code, j) is None
        }),
{
    let rest = code.skip(m);
    lemma_sites_skip(funcs[c], code, m, 0);
    lemma_sites(funcs[c], rest, 0);
    let site = call_sites(funcs[c], code, m)[k];
    let other = call_sites(funcs[c], rest, 0)[k];
    if site.start <= j < site.end {
        assert(site_at(funcs[d], rest, j - m) is None);
        lemma_site_skip(funcs[d], code, m, j - m);
    }
}

proof fn lemma_names_none(f: Seq<char>, code: Seq<u8>, from: int, to: int)
    requires
        0 <= from <= to <= code.len(),
        forall|i: int| from <= i < to ==> #[trigger] site_at(f, code, i) is None,
    ensures
        names_from(f, code, from) == names_from(f, code, to),
    decreases to - from,
{
    if from < to {
        lemma_names_step(f, code, from);
        lemma_names_none(f, code, from + 1, to);
    }
}

/// The names of a script from `from` on, given what its head of `m` bytes holds.
proof fn lemma_names_head(f: Seq<char>, code: Seq<u8>, from: int, m: int)
    requires
        0 <= from,
        0 < m,
        from + m <= code.len(),
        match site_at(f, code, from) {
            Some(site) => site.end == from + m,
            None => forall|i: int|
                from < i < from + m ==> #[trigger] site_at(f, code, i) is None,
        },
    ensures
        names_from(f, code, from) == match site_at(f, code, from) {
            Some(site) => seq![site_name(code, site)] + names_from(f, code, from + m),
            None => names_from(f, code, from + m),
        },
{
    lemma_names_step(f, code, from);
    if site_at(f, code, from) is None {
        lemma_names_none(f, code, from + 1, from + m);
    }
}

/// One pass keeps a script separate, and keeps the names that are passed to other functions.
proof fn lemma_pass_from(
    funcs: Seq<Seq<char>>,
    g: int,
    code: Seq<u8>,
    maps: Seq<Map<Seq<char>, Seq<char>>>,
    from: int,
)
    requires
        distinguishable(funcs),
        harmless(maps),
        0 <= g < funcs.len(),
        0 <= from <= code.len(),
        separate_from(funcs, code, from),
    ensures
        separate(funcs, rewritten_from(funcs[g], code, maps, from)),
        forall|b: int|
            0 <= b < funcs.len() && b != g ==> names_from(
                #[trigger] funcs[b],
                rewritten_from(funcs[g], code, maps, from),
                0,
            ) == names_from(funcs[b], code, from),
    decreases code.len() - from, 1int,
{
    let gg = funcs[g];
    let out = rewritten_from(gg, code, maps, from);
    if from == code.len() {
        assert forall|a: int, i: int| 0 <= i && 0 <= a < funcs.len() implies #[trigger] site_at(
            funcs[a],
            out,
            i,
        ) is None by {
            lemma_site_bounds(funcs[a], out, i);
        }
        assert forall|b: int| 0 <= b < funcs.len() && b != g implies names_from(
            #[trigger] funcs[b],
            out,
            0,
        ) == names_from(funcs[b], code, from) by {
            assert(names_from(funcs[b], out, 0) =~= names_from(funcs[b], code, from));
        }
    } else if exists|a: int| 0 <= a < funcs.len() && site_at(#[trigger] funcs[a], code, from) is Some {
        let a = choose|a: int|
            0 <= a < funcs.len() && site_at(#[trigger] funcs[a], code, from) is Some;
        if a == g {
            lemma_pass_at_own(funcs, g, code, maps, from);
        } else {
            lemma_pass_at_other(funcs, g, code, maps, from, a);
        }
    } else {
        assert(site_at(gg, code, from) is None);
        assert(separate_from(funcs, code, from + 1)) by {
            assert forall|c: int, d: int, k: int, j: int|
                0 <= c < funcs.len() && 0 <= d < funcs.len() && c != d && 0 <= k < call_sites(
                    funcs[c],
                    code,
                    from + 1,
                ).len() implies {
                let site = #[trigger] call_sites(funcs[c], code, from + 1)[k];
                site.start <= j < site.end ==> #[trigger] site_at(funcs[d], code, j) is None
            } by {
                assert(site_at(funcs[c], code, from) is None);
                assert(call_sites(funcs[c], code, from)[k] == call_sites(
                    funcs[c],
                    code,
                    from + 1,
                )[k]);
            }
        }
        lemma_pass_from(funcs, g, code, maps, from + 1);
        let rest = rewritten_from(gg, code, maps, from + 1);
        let head = seq![code[from]];
        assert(out == head + rest);
        assert(out.skip(1) =~= rest);
        assert forall|b: int, j: int|
            0 <= b < funcs.len() && 0 <= j < 1 implies #[trigger] site_at(
            funcs[b],
            out,
            j,
        ) is None by {
            assert(site_at(funcs[b], code, from) is None);
            lemma_still_none(funcs[b], gg, code, maps, from, from + 1, out, 0);
        }
        lemma_separate_concat(funcs, head, rest, -1);
        assert forall|b: int| 0 <= b < funcs.len() && b != g implies names_from(
            #[trigger] funcs[b],
            out,
            0,
        ) == names_from(funcs[b], code, from) by {
            assert(site_at(funcs[b], out, 0) is None);
            lemma_names_head(funcs[b], out, 0, 1);
            lemma_names_head(funcs[b], code, from, 1);
            lemma_names_skip(funcs[b], out, 1, 0);
        }
    }
}

/// The same where a call of the function of the pass begins at `from`.
#[verifier::spinoff_prover]
#[verifier::rlimit(40)]
proof fn lemma_pass_at_own(
    funcs: Seq<Seq<char>>,
    g: int,
    code: Seq<u8>,
    maps: Seq<Map<Seq<char>, Seq<char>>>,
    from: int,
)
    requires
        distinguishable(funcs),
        harmless(maps),
        0 <= g < funcs.len(),
        0 <= from < code.len(),
        separate_from(funcs, code, from),
        site_at(funcs[g], code, from) is Some,
    ensures
        separate(funcs, rewritten_from(funcs[g], code, maps, from)),
        forall|b: int|
            0 <= b < funcs.len() && b != g ==> names_from(
                #[trigger] funcs[b],
                rewritten_from(funcs[g], code, maps, from),
                0,
            ) == names_from(funcs[b], code, from),
    decreases code.len() - from, 0int,
{
    let gg = funcs[g];
    let out = rewritten_from(gg, code, maps, from);
    let site = site_at(gg, code, from).unwrap();
    lemma_site_bounds(gg, code, from);
    lemma_separate_step(funcs, code, from, g);
    lemma_pass_from(funcs, g, code, maps, site.end);
    let rest = rewritten_from(gg, code, maps, site.end);
    let text = site_text(gg, code, site, maps);
    assert(out == text + rest);
    assert(out.skip(text.len() as int) =~= rest);
    assert(text.len() > 0);
    assert forall|b: int, j: int|
        0 <= b < funcs.len() && b != g && 0 <= j < text.len() implies #[trigger] site_at(
        funcs[b],
        out,
        j,
    ) is None by {
        lemma_inside(funcs, g, code, maps, from, b, j);
    }
    lemma_rewritten_end(gg, code, maps, from);
    lemma_separate_concat(funcs, text, rest, g);
    assert forall|b: int| 0 <= b < funcs.len() && b != g implies names_from(
        #[trigger] funcs[b],
        out,
        0,
    ) == names_from(funcs[b], code, from) by {
        assert(forall|i: int|
            0 <= i < text.len() ==> #[trigger] site_at(funcs[b], out, i) is None);
        assert(forall|i: int|
            from <= i < site.end ==> #[trigger] site_at(funcs[b], code, i) is None);
        lemma_names_none(funcs[b], out, 0, text.len() as int);
        lemma_names_none(funcs[b], code, from, site.end);
        lemma_names_skip(funcs[b], out, text.len() as int, 0);
    }
}

/// The same where a call of another function begins at `from`.
#[verifier::spinoff_prover]
#[verifier::rlimit(40)]
proof fn lemma_pass_at_other(
    funcs: Seq<Seq<char>>,
    g: int,
    code: Seq<u8>,
    maps: Seq<Map<Seq<char>, Seq<char>>>,
    from: int,
    a: int,
)
    requires
        distinguishable(funcs),
        harmless(maps),
        0 <= g < funcs.len(),
        0 <= a < funcs.len(),
        0 <= from < code.len(),
        separate_from(funcs, code, from),
        site_at(funcs[a], code, from) is Some,
        a != g,
    ensures
        separate(funcs, rewritten_from(funcs[g], code, maps, from)),
        forall|b: int|
            0 <= b < funcs.len() && b != g ==> names_from(
                #[trigger] funcs[b],
                rewritten_from(funcs[g], code, maps, from),
                0,
            ) == names_from(funcs[b], code, from),
    decreases code.len() - from, 0int,
{
    let gg = funcs[g];
    let out = rewritten_from(gg, code, maps, from);
    let site = site_at(funcs[a], code, from).unwrap();
    lemma_site_bounds(funcs[a], code, from);
    lemma_separate_step(funcs, code, from, a);
    lemma_pass_from(funcs, g, code, maps, site.end);
    let rest = rewritten_from(gg, code, maps, site.end);
    let m = site.end - from;
    assert(forall|i: int| from <= i < site.end ==> #[trigger] site_at(gg, code, i) is None);
    lemma_gap(gg, code, maps, from, site.end);
    let text = code.subrange(from, site.end);
    assert(out == text + rest);
    assert(out.skip(m) =~= rest);
    assert forall|b: int, j: int|
        0 <= b < funcs.len() && b != a && 0 <= j < m implies #[trigger] site_at(
        funcs[b],
        out,
        j,
    ) is None by {
        assert(site_at(funcs[b], code, from + j) is None);
        assert(out.subrange(j, m) =~= code.subrange(from + j, site.end));
        lemma_still_none(funcs[b], gg, code, maps, from + j, site.end, out, j);
    }
    lemma_quote_free(funcs[a]);
    lemma_site_skip(funcs[a], code, from, 0);
    assert(alike(code.skip(from), out, m));
    lemma_site_local(funcs[a], code.skip(from), out, m);
    lemma_separate_concat(funcs, text, rest, a);
    assert forall|b: int| 0 <= b < funcs.len() && b != g implies names_from(
        #[trigger] funcs[b],
        out,
        0,
    ) == names_from(funcs[b], code, from) by {
        if b != a {
            assert(site_at(funcs[b], out, 0) is None);
            assert(site_at(funcs[b], code, from) is None);
        }
        lemma_names_head(funcs[b], out, 0, m);
        lemma_names_head(funcs[b], code, from, m);
        lemma_names_skip(funcs[b], out, m, 0);
    }
}

/// A rewritten call ends where its text ends.
proof fn lemma_rewritten_end(
    g: Seq<char>,
    code: Seq<u8>,
    maps: Seq<Map<Seq<char>, Seq<char>>>,
    from: int,
)
    requires
        quote_free(g),
        harmless(maps),
        0 <= from,
        site_at(g, code, from) is Some,
    ensures
        ({
            let site = site_at(g, code, from).unwrap();
            &&& site_at(g, rewritten_from(g, code, maps, from), 0) matches Some(other)
            &&& other.end == site_text(g, code, site, maps).len()
        }),
{
    let site = site_at(g, code, from).unwrap();
    let text = site_text(g, code, site, maps);
    let rest = rewritten_from(g, code, maps, site.end);
    let out = text + rest;
    lemma_site_bounds(g, code, from);
    lemma_lookup_harmless(maps, site_name(code, site));
    lemma_quote_free(g);
    match lookup(maps, site_name(code, site)) {
        Some(new) => {
            lemma_call_text(g, new, rest);
        },
        None => {
            lemma_site_skip(g, code, from, 0);
            assert(alike(code.skip(from), out, text.len() as int));
            lemma_site_local(g, code.skip(from), out, text.len() as int);
        },
    }
}

/// A pass for one function keeps a script separate. The names that are passed to that function are
/// replaced; those that are passed to another stay.
pub proof fn law_pass_keeps_others(
    funcs: Seq<Seq<char>>,
    f: int,
    g: int,
    code: Seq<u8>,
    maps: Seq<Map<Seq<char>, Seq<char>>>,
)
    requires
        distinguishable(funcs),
        separate(funcs, code),
        harmless(maps),
        0 <= f < funcs.len(),
        0 <= g < funcs.len(),
    ensures
        separate(funcs, rewritten(funcs[g], code, maps)),
        names_in(funcs[f], rewritten(funcs[g], code, maps)) == if f == g {
            names_in(funcs[f], code).map_values(|name: Seq<char>| renamed(maps, name))
        } else {
            names_in(funcs[f], code)
        },
{
    let out = rewritten(funcs[g], code, maps);
    lemma_pass_from(funcs, g, code, maps, 0);
    if f == g {
        assert forall|i: int, name: Seq<char>|
            0 <= i < maps.len() && #[trigger] maps[i].contains_key(name) implies quote_free(
            maps[i][name],
        ) by {}
        assert(quote_free(funcs[g]));
        law_rewrite_renames(funcs[g], code, maps);
    } else {
        assert(names_from(funcs[f], out, 0) == names_from(funcs[f], code, 0));
    }
}

/// The name that stands for `name` at the calls of a function after the passes.
pub open spec fn renamed_by(passes: Seq<Pass>, func: Seq<char>, name: Seq<char>) -> Seq<char>
    decreases passes.len(),
{
    if passes.len() == 0 {
        name
    } else {
        let before = renamed_by(passes.drop_last(), func, name);
        if passes.last().func == func {
            renamed(passes.last().maps, before)
        } else {
            before
        }
    }
}

/// What a scan finds in a script after several passes: of each function, the calls are those of the
/// script before, in the same order, with the names that the passes for that function put in
/// their place.
pub proof fn law_passes_rename(
    funcs: Seq<Seq<char>>,
    passes: Seq<Pass>,
    code: Seq<u8>,
    f: int,
)
    requires
        distinguishable(funcs),
        separate(funcs, code),
        forall|i: int|
            0 <= i < passes.len() ==> harmless((#[trigger] passes[i]).maps) && funcs.contains(
                passes[i].func,
            ),
        0 <= f < funcs.len(),
    ensures
        separate(funcs, rewritten_all(passes, code)),
        names_in(funcs[f], rewritten_all(passes, code)) == names_in(funcs[f], code).map_values(
            |name: Seq<char>| renamed_by(passes, funcs[f], name),
        ),
    decreases passes.len(),
{
    let names = names_in(funcs[f], code);
    let out = rewritten_all(passes, code);
    if passes.len() > 0 {
        let front = passes.drop_last();
        let last = passes.last();
        let before = rewritten_all(front, code);
        assert forall|i: int| 0 <= i < front.len() implies harmless((#[trigger] front[i]).maps)
            && funcs.contains(front[i].func) by {
            assert(front[i] == passes[i]);
        }
        law_passes_rename(funcs, front, code, f);
        assert(passes[passes.len() - 1] == last);
        let g = choose|g: int| 0 <= g < funcs.len() && funcs[g] == last.func;
        law_pass_keeps_others(funcs, f, g, before, last.maps);
        if funcs[f] == last.func {
            assert(f == g) by {
                if f != g {
                    assert(!ends_with(encode_utf8(funcs[f]), encode_utf8(funcs[g])));
                    let bytes = encode_utf8(funcs[f]);
                    assert(bytes.skip(bytes.len() - bytes.len()) =~= bytes);
                }
            }
        }
    }
    assert(names_in(funcs[f], out) =~= names.map_values(
        |name: Seq<char>| renamed_by(passes, funcs[f], name),
    ));
}

/// A script of which no name is known to any pass stays as it is.
pub proof fn law_unknown_names_stay_in_passes(passes: Seq<Pass>, code: Seq<u8>)
    requires
        forall|i: int, name: Seq<char>|
            0 <= i < passes.len() && names_in((#[trigger] passes[i]).func, code).contains(name)
                ==> #[trigger] lookup(passes[i].maps, name) is None,
    ensures
        rewritten_all(passes, code) == code,
    decreases passes.len(),
{
    if passes.len() > 0 {
        let front = passes.drop_last();
        let last = passes.last();
        assert forall|i: int, name: Seq<char>|
            0 <= i < front.len() && names_in((#[trigger] front[i]).func, code).contains(
                name,
            ) implies #[trigger] lookup(front[i].maps, name) is None by {
            assert(front[i] == passes[i]);
        }
        law_unknown_names_stay_in_passes(front, code);
        assert(passes[passes.len() - 1] == last);
        assert forall|k: int| 0 <= k < names_in(last.func, code).len() implies lookup(
            last.maps,
            #[trigger] names_in(last.func, code)[k],
        ) is None by {
            assert(names_in(last.func, code).contains(names_in(last.func, code)[k]));
        }
        law_unknown_names_stay(last.func, code, last.maps);
    }
}

} // verus!
