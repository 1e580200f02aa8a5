//! Rewriting of scripts: at every call site the name is replaced by the one it is mapped to, and
//! everything else stays as it is, byte for byte.
use crate::calls::{
    call_sites, captures, lemma_first_site, lemma_site_bounds, site_at, site_name, CallRegex, Site,
};
use crate::names::{lemma_position, position};
use crate::text::{append_bytes, views};
use vstd::hash_map::StringHashMap;
use vstd::prelude::*;
use vstd::utf8::*;

verus! {

/// Old names and what they are replaced by.
pub type NameMap = StringHashMap<String>;

/// The mapping that a table holds.
pub open spec fn mapping(map: Map<Seq<char>, String>) -> Map<Seq<char>, Seq<char>> {
    map.map_values(|s: String| s@)
}

/// The mappings that a list of tables holds.
pub open spec fn mappings(maps: Seq<&NameMap>) -> Seq<Map<Seq<char>, Seq<char>>> {
    Seq::new(maps.len(), |i: int| mapping(maps[i]@))
}

/// What the first of the mappings that knows `name` says of it.
pub open spec fn lookup(maps: Seq<Map<Seq<char>, Seq<char>>>, name: Seq<char>) -> Option<Seq<char>>
    decreases maps.len(),
{
    if maps.len() == 0 {
        None
    } else if maps[0].contains_key(name) {
        Some(maps[0][name])
    } else {
        lookup(maps.drop_first(), name)
    }
}

/// The text of a call site that passes `name` to `func`.
pub open spec fn call_text(func: Seq<char>, name: Seq<char>) -> Seq<u8> {
    encode_utf8(func) + seq![0x28u8, 0x27u8] + encode_utf8(name) + seq![0x27u8]
}

/// What a call site becomes: a call with the new name where there is one, else what it was.
pub open spec fn site_text(
    func: Seq<char>,
    code: Seq<u8>,
    site: Site,
    maps: Seq<Map<Seq<char>, Seq<char>>>,
) -> Seq<u8> {
    match lookup(maps, site_name(code, site)) {
        Some(name) => call_text(func, name),
        None => code.subrange(site.start, site.end),
    }
}

/// `code` from position `from` on, with its call sites rewritten.
pub open spec fn rewritten_from(
    func: Seq<char>,
    code: Seq<u8>,
    maps: Seq<Map<Seq<char>, Seq<char>>>,
    from: int,
) -> Seq<u8>
    decreases code.len() - from,
{
    if from >= code.len() {
        Seq::empty()
    } else {
        match site_at(func, code, from) {
            Some(site) => {
                proof {
                    lemma_site_bounds(func, code, from);
                }
                site_text(func, code, site, maps) + rewritten_from(func, code, maps, site.end)
            },
            None => seq![code[from]] + rewritten_from(func, code, maps, from + 1),
        }
    }
}

/// `code` with the call sites of `func` rewritten.
pub open spec fn rewritten(
    func: Seq<char>,
    code: Seq<u8>,
    maps: Seq<Map<Seq<char>, Seq<char>>>,
) -> Seq<u8> {
    rewritten_from(func, code, maps, 0)
}

/// Bytes at which no call begins stay.
pub proof fn lemma_gap(
    func: Seq<char>,
    code: Seq<u8>,
    maps: Seq<Map<Seq<char>, Seq<char>>>,
    from: int,
    to: int,
)
    requires
        0 <= from <= to <= code.len(),
        forall|i: int| from <= i < to ==> site_at(func, code, i) is None,
    ensures
        rewritten_from(func, code, maps, from) == code.subrange(from, to) + rewritten_from(
            func,
            code,
            maps,
            to,
        ),
    decreases to - from,
{
    if from < to {
        lemma_gap(func, code, maps, from + 1, to);
        assert(seq![code[from]] + (code.subrange(from + 1, to) + rewritten_from(
            func,
            code,
            maps,
            to,
        )) =~= code.subrange(from, to) + rewritten_from(func, code, maps, to));
    } else {
        assert(code.subrange(from, to) =~= Seq::empty());
        assert(Seq::<u8>::empty() + rewritten_from(func, code, maps, to) =~= rewritten_from(
            func,
            code,
            maps,
            to,
        ));
    }
}

/// The number of pairs that two lists make.
pub open spec fn pairs<A, B>(old: Seq<A>, new: Seq<B>) -> int {
    if old.len() <= new.len() {
        old.len() as int
    } else {
        new.len() as int
    }
}

/// The mapping that two lists make in lock-step: an old name goes to the new name that stands
/// where the old one stands first.
pub open spec fn paired(old: Seq<Seq<char>>, new: Seq<Seq<char>>) -> Map<Seq<char>, Seq<char>> {
    Map::new(
        |name: Seq<char>| old.take(pairs(old, new)).contains(name),
        |name: Seq<char>| new[position(old, name)],
    )
}

/// Makes the table in which an old name leads to the new name at the same place. Of an old name
/// that stands in the list more than once, the first place counts.
pub fn build_map(old: &[String], new: &[String]) -> (r: NameMap)
    ensures
        mapping(r@) == paired(views(old@), views(new@)),
{
    let mut map: NameMap = StringHashMap::with_capacity(old.len());
    let ghost olds = views(old@);
    let ghost news = views(new@);
    let mut i: usize = 0;
    while i < old.len() && i < new.len()
        invariant
            olds == views(old@),
            news == views(new@),
            i <= old.len(),
            i <= new.len(),
            forall|name: Seq<char>|
                #[trigger] map@.contains_key(name) <==> exists|j: int|
                    0 <= j < i && olds[j] == name,
            forall|name: Seq<char>| #[trigger]
                map@.contains_key(name) ==> map@[name]@ == news[position(olds, name)],
        decreases old.len() - i,
    {
        let ghost before = map@;
        proof {
            lemma_position(olds, olds[i as int]);
        }
        if !map.contains_key(old[i].as_str()) {
            map.insert(old[i].clone(), new[i].clone());
            assert(position(olds, olds[i as int]) == i);
        } else {
            let ghost k = choose|j: int| 0 <= j < i && olds[j] == olds[i as int];
            assert(olds[k] == olds[i as int]);
        }
        assert forall|name: Seq<char>| #[trigger] map@.contains_key(name) implies exists|j: int|
            0 <= j < i + 1 && olds[j] == name by {
            if before.contains_key(name) {
                let k = choose|j: int| 0 <= j < i && olds[j] == name;
                assert(olds[k] == name);
            } else {
                assert(olds[i as int] == name);
            }
        }
        assert forall|name: Seq<char>|
            (exists|j: int| 0 <= j < i + 1 && olds[j] == name) implies #[trigger] map@.contains_key(
            name,
        ) by {
            let k = choose|j: int| 0 <= j < i + 1 && olds[j] == name;
            if k < i {
                assert(before.contains_key(name));
            }
        }
        i += 1;
    }
    proof {
        let made = paired(olds, news);
        let n = pairs(olds, news);
        assert forall|name: Seq<char>| #[trigger]
            mapping(map@).contains_key(name) <==> made.contains_key(name) by {
            if map@.contains_key(name) {
                let k = choose|j: int| 0 <= j < i && olds[j] == name;
                assert(olds.take(n)[k] == name);
            }
            if made.contains_key(name) {
                let k = choose|j: int| 0 <= j < olds.take(n).len() && olds.take(n)[j] == name;
                assert(olds[k] == name);
            }
        }
        assert(mapping(map@) =~= made);
    }
    map
}

/// What the first of the tables that knows `name` says of it.
pub fn find_name<'a>(lookups: &[&'a NameMap], name: &str) -> (r: Option<&'a String>)
    ensures
        match r {
            Some(s) => lookup(mappings(lookups@), name@) == Some(s@),
            None => lookup(mappings(lookups@), name@) is None,
        },
{
    let mut i: usize = 0;
    assert(mappings(lookups@).skip(0) =~= mappings(lookups@));
    while i < lookups.len()
        invariant
            i <= lookups.len(),
            lookup(mappings(lookups@), name@) == lookup(mappings(lookups@).skip(i as int), name@),
        decreases lookups.len() - i,
    {
        let ghost rest = mappings(lookups@).skip(i as int);
        assert(rest[0] == mapping(lookups@[i as int]@));
        match lookups[i].get(name) {
            Some(s) => {
                return Some(s);
            },
            None => {
                assert(rest.drop_first() =~= mappings(lookups@).skip(i + 1));
            },
        }
        i += 1;
    }
    None
}

/// Replaces the name at every call site of the expression's function: a name is looked up in the
/// tables from the first to the last, and the first that knows it gives the new one. A site whose
/// name no table knows, and all that lies between the sites, is kept byte for byte.
pub fn rewrite(code: &[u8], re: &CallRegex, lookups: &[&NameMap]) -> (r: Vec<u8>)
    requires
        re.wf(),
    ensures
        r@ == rewritten(re.func@, code@, mappings(lookups@)),
{
    let ghost func = re.func@;
    let ghost maps = mappings(lookups@);
    let sites = captures(re, code);
    let mut out: Vec<u8> = Vec::new();
    let mut pos: usize = 0;
    let mut k: usize = 0;
    proof {
        assert(views(sites@).skip(0) =~= call_sites(func, code@, 0));
        assert(Seq::<u8>::empty() + rewritten(func, code@, maps) =~= rewritten(func, code@, maps));
    }
    while k < sites.len()
        invariant
            func == re.func@,
            maps == mappings(lookups@),
            k <= sites.len(),
            pos <= code.len(),
            views(sites@).skip(k as int) == call_sites(func, code@, pos as int),
            out@ + rewritten_from(func, code@, maps, pos as int) == rewritten(func, code@, maps),
        decreases sites.len() - k,
    {
        let site = &sites[k];
        let ghost before = out@;
        proof {
            lemma_first_site(func, code@, pos as int);
            assert(views(sites@).skip(k as int)[0] == site@);
            lemma_site_bounds(func, code@, site@.start);
            lemma_gap(func, code@, maps, pos as int, site@.start);
            assert(views(sites@).skip(k as int).drop_first() =~= views(sites@).skip(k + 1));
        }
        append_bytes(&mut out, &code[pos..site.start]);
        let ghost text = site_text(func, code@, site@, maps);
        let replacement: Option<&String> = match core::str::from_utf8(
            &code[site.name_start..site.name_end],
        ) {
            Ok(name) => {
                proof {
                    encode_utf8_decode_utf8(name@);
                }
                find_name(lookups, name)
            },
            Err(_) => None,
        };
        match replacement {
            Some(name) => {
                append_bytes(&mut out, re.func.as_str().as_bytes());
                append_bytes(&mut out, "('".as_bytes());
                append_bytes(&mut out, name.as_str().as_bytes());
                append_bytes(&mut out, "'".as_bytes());
                proof {
                    lemma_marks();
                    assert(out@ =~= before + code@.subrange(pos as int, site@.start) + text);
                }
            },
            None => {
                append_bytes(&mut out, &code[site.start..site.end]);
            },
        }
        proof {
            assert(out@ == before + code@.subrange(pos as int, site@.start) + text);
            let tail = rewritten_from(func, code@, maps, site@.end);
            assert(rewritten_from(func, code@, maps, site@.start) == text + tail);
            assert(out@ + tail =~= before + (code@.subrange(pos as int, site@.start) + (text
                + tail)));
        }
        pos = site.end;
        k += 1;
    }
    proof {
        lemma_first_site(func, code@, pos as int);
        assert(call_sites(func, code@, pos as int).len() == 0);
        lemma_gap(func, code@, maps, pos as int, code@.len() as int);
    }
    append_bytes(&mut out, &code[pos..code.len()]);
    out
}

/// The bytes of the two pieces of punctuation round a name.
pub proof fn lemma_marks()
    ensures
        encode_utf8("('"@) == seq![0x28u8, 0x27u8],
        encode_utf8("'"@) == seq![0x27u8],
{
    reveal_strlit("('");
    reveal_strlit("'");
    is_ascii_chars_encode_utf8("('"@);
    is_ascii_chars_encode_utf8("'"@);
    assert(encode_utf8("('"@) =~= seq![0x28u8, 0x27u8]);
    assert(encode_utf8("'"@) =~= seq![0x27u8]);
}

} // verus!
