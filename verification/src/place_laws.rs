//! What the path of a script says of it: whether it is one of a system resource, and on which sides
//! it runs.
use crate::paths::file_name;
use crate::scripts::{
    as_directory, in_system_resource, readable_name, runs_on, system_resources,
};
use crate::text::{begins_with, has_part};
use crate::text_laws::{law_parts, lemma_encode_concat};
use vstd::prelude::*;
use vstd::utf8::*;

verus! {

/// The names of system resources, each between two slashes.
spec fn between_slashes() -> Seq<Seq<char>> {
    seq![
        "/fivem/"@,
        "/fivem-awesome1501/"@,
        "/fivem-map-hipster/"@,
        "/fivem-map-skater/"@,
        "/runcode/"@,
        "/race/"@,
        "/race-test/"@,
        "/channelfeed/"@,
        "/irc/"@,
        "/obituary/"@,
        "/obituary-deaths/"@,
        "/playernames/"@,
        "/mapmanager/"@,
        "/baseevents/"@,
        "/chat/"@,
        "/hardcap/"@,
        "/rconlog/"@,
        "/scoreboard/"@,
        "/sessionmanager/"@,
        "/spawnmanager/"@,
        "/yarn/"@,
        "/betaguns/"@,
        "/gameInit/"@,
        "/keks/"@,
        "/mysql-async/"@,
        "/ox_lib/"@,
    ]
}

proof fn lemma_between_slashes(k: int)
    requires
        0 <= k < 26,
    ensures
        system_resources().len() == 26,
        between_slashes().len() == 26,
        as_directory(system_resources()[k]) == encode_utf8(between_slashes()[k]),
{
    let name = system_resources()[k];
    let text = between_slashes()[k];
    reveal_strlit("/");
    reveal_strlit("fivem");
    reveal_strlit("/fivem/");
    reveal_strlit("fivem-awesome1501");
    reveal_strlit("/fivem-awesome1501/");
    reveal_strlit("fivem-map-hipster");
    reveal_strlit("/fivem-map-hipster/");
    reveal_strlit("fivem-map-skater");
    reveal_strlit("/fivem-map-skater/");
    reveal_strlit("runcode");
    reveal_strlit("/runcode/");
    reveal_strlit("race");
    reveal_strlit("/race/");
    reveal_strlit("race-test");
    reveal_strlit("/race-test/");
    reveal_strlit("channelfeed");
    reveal_strlit("/channelfeed/");
    reveal_strlit("irc");
    reveal_strlit("/irc/");
    reveal_strlit("obituary");
    reveal_strlit("/obituary/");
    reveal_strlit("obituary-deaths");
    reveal_strlit("/obituary-deaths/");
    reveal_strlit("playernames");
    reveal_strlit("/playernames/");
    reveal_strlit("mapmanager");
    reveal_strlit("/mapmanager/");
    reveal_strlit("baseevents");
    reveal_strlit("/baseevents/");
    reveal_strlit("chat");
    reveal_strlit("/chat/");
    reveal_strlit("hardcap");
    reveal_strlit("/hardcap/");
    reveal_strlit("rconlog");
    reveal_strlit("/rconlog/");
    reveal_strlit("scoreboard");
    reveal_strlit("/scoreboard/");
    reveal_strlit("sessionmanager");
    reveal_strlit("/sessionmanager/");
    reveal_strlit("spawnmanager");
    reveal_strlit("/spawnmanager/");
    reveal_strlit("yarn");
    reveal_strlit("/yarn/");
    reveal_strlit("betaguns");
    reveal_strlit("/betaguns/");
    reveal_strlit("gameInit");
    reveal_strlit("/gameInit/");
    reveal_strlit("keks");
    reveal_strlit("/keks/");
    reveal_strlit("mysql-async");
    reveal_strlit("/mysql-async/");
    reveal_strlit("ox_lib");
    reveal_strlit("/ox_lib/");
    assert("/"@ + name + "/"@ =~= text);
    lemma_encode_concat("/"@, name);
    lemma_encode_concat("/"@ + name, "/"@);
}

proof fn lemma_system_part(path: Seq<u8>, i: int, j: int, k: int)
    requires
        0 <= k < 26,
        0 <= i <= j <= path.len(),
        path.subrange(i, j) == encode_utf8(between_slashes()[k]),
    ensures
        in_system_resource(path),
{
    lemma_between_slashes(k);
    let part = as_directory(system_resources()[k]);
    assert(path.subrange(i, j).len() == j - i);
    assert(path.subrange(i, i + part.len()) == part);
}

/// A path leads through a system resource exactly where one of these names stands in it between two
/// slashes.
pub proof fn law_system_resources(path: Seq<u8>)
    ensures
        in_system_resource(path) <==> exists|i: int, j: int|
            0 <= i <= j <= path.len() && {
                let part = #[trigger] path.subrange(i, j);
                ||| part == encode_utf8("/fivem/"@)
                ||| part == encode_utf8("/fivem-awesome1501/"@)
                ||| part == encode_utf8("/fivem-map-hipster/"@)
                ||| part == encode_utf8("/fivem-map-skater/"@)
                ||| part == encode_utf8("/runcode/"@)
                ||| part == encode_utf8("/race/"@)
                ||| part == encode_utf8("/race-test/"@)
                ||| part == encode_utf8("/channelfeed/"@)
                ||| part == encode_utf8("/irc/"@)
                ||| part == encode_utf8("/obituary/"@)
                ||| part == encode_utf8("/obituary-deaths/"@)
                ||| part == encode_utf8("/playernames/"@)
                ||| part == encode_utf8("/mapmanager/"@)
                ||| part == encode_utf8("/baseevents/"@)
                ||| part == encode_utf8("/chat/"@)
                ||| part == encode_utf8("/hardcap/"@)
                ||| part == encode_utf8("/rconlog/"@)
                ||| part == encode_utf8("/scoreboard/"@)
                ||| part == encode_utf8("/sessionmanager/"@)
                ||| part == encode_utf8("/spawnmanager/"@)
                ||| part == encode_utf8("/yarn/"@)
                ||| part == encode_utf8("/betaguns/"@)
                ||| part == encode_utf8("/gameInit/"@)
                ||| part == encode_utf8("/keks/"@)
                ||| part == encode_utf8("/mysql-async/"@)
                ||| part == encode_utf8("/ox_lib/"@)
            },
{
    if in_system_resource(path) {
        let k = choose|k: int|
            0 <= k < system_resources().len() && has_part(
                path,
                as_directory(#[trigger] system_resources()[k]),
            );
        lemma_between_slashes(k);
        let part = as_directory(system_resources()[k]);
        let i = choose|i: int|
            0 <= i <= path.len() - part.len() && #[trigger] path.subrange(i, i + part.len())
                == part;
        assert(path.subrange(i, i + part.len()) == encode_utf8(between_slashes()[k]));
    }
    assert forall|i: int, j: int|
        0 <= i <= j <= path.len() && {
            let part = #[trigger] path.subrange(i, j);
            ||| part == encode_utf8("/fivem/"@)
            ||| part == encode_utf8("/fivem-awesome1501/"@)
            ||| part == encode_utf8("/fivem-map-hipster/"@)
            ||| part == encode_utf8("/fivem-map-skater/"@)
            ||| part == encode_utf8("/runcode/"@)
            ||| part == encode_utf8("/race/"@)
            ||| part == encode_utf8("/race-test/"@)
            ||| part == encode_utf8("/channelfeed/"@)
            ||| part == encode_utf8("/irc/"@)
            ||| part == encode_utf8("/obituary/"@)
            ||| part == encode_utf8("/obituary-deaths/"@)
            ||| part == encode_utf8("/playernames/"@)
            ||| part == encode_utf8("/mapmanager/"@)
            ||| part == encode_utf8("/baseevents/"@)
            ||| part == encode_utf8("/chat/"@)
            ||| part == encode_utf8("/hardcap/"@)
            ||| part == encode_utf8("/rconlog/"@)
            ||| part == encode_utf8("/scoreboard/"@)
            ||| part == encode_utf8("/sessionmanager/"@)
            ||| part == encode_utf8("/spawnmanager/"@)
            ||| part == encode_utf8("/yarn/"@)
            ||| part == encode_utf8("/betaguns/"@)
            ||| part == encode_utf8("/gameInit/"@)
            ||| part == encode_utf8("/keks/"@)
            ||| part == encode_utf8("/mysql-async/"@)
            ||| part == encode_utf8("/ox_lib/"@)
        } implies in_system_resource(path) by {
        let part = path.subrange(i, j);
        let texts = between_slashes();
        if part == encode_utf8("/fivem/"@) {
            lemma_system_part(path, i, j, 0);
        }
        if part == encode_utf8("/fivem-awesome1501/"@) {
            lemma_system_part(path, i, j, 1);
        }
        if part == encode_utf8("/fivem-map-hipster/"@) {
            lemma_system_part(path, i, j, 2);
        }
        if part == encode_utf8("/fivem-map-skater/"@) {
            lemma_system_part(path, i, j, 3);
        }
        if part == encode_utf8("/runcode/"@) {
            lemma_system_part(path, i, j, 4);
        }
        if part == encode_utf8("/race/"@) {
            lemma_system_part(path, i, j, 5);
        }
        if part == encode_utf8("/race-test/"@) {
            lemma_system_part(path, i, j, 6);
        }
        if part == encode_utf8("/channelfeed/"@) {
            lemma_system_part(path, i, j, 7);
        }
        if part == encode_utf8("/irc/"@) {
            lemma_system_part(path, i, j, 8);
        }
        if part == encode_utf8("/obituary/"@) {
            lemma_system_part(path, i, j, 9);
        }
        if part == encode_utf8("/obituary-deaths/"@) {
            lemma_system_part(path, i, j, 10);
        }
        if part == encode_utf8("/playernames/"@) {
            lemma_system_part(path, i, j, 11);
        }
        if part == encode_utf8("/mapmanager/"@) {
            lemma_system_part(path, i, j, 12);
        }
        if part == encode_utf8("/baseevents/"@) {
            lemma_system_part(path, i, j, 13);
        }
        if part == encode_utf8("/chat/"@) {
            lemma_system_part(path, i, j, 14);
        }
        if part == encode_utf8("/hardcap/"@) {
            lemma_system_part(path, i, j, 15);
        }
        if part == encode_utf8("/rconlog/"@) {
            lemma_system_part(path, i, j, 16);
        }
        if part == encode_utf8("/scoreboard/"@) {
            lemma_system_part(path, i, j, 17);
        }
        if part == encode_utf8("/sessionmanager/"@) {
            lemma_system_part(path, i, j, 18);
        }
        if part == encode_utf8("/spawnmanager/"@) {
            lemma_system_part(path, i, j, 19);
        }
        if part == encode_utf8("/yarn/"@) {
            lemma_system_part(path, i, j, 20);
        }
        if part == encode_utf8("/betaguns/"@) {
            lemma_system_part(path, i, j, 21);
        }
        if part == encode_utf8("/gameInit/"@) {
            lemma_system_part(path, i, j, 22);
        }
        if part == encode_utf8("/keks/"@) {
            lemma_system_part(path, i, j, 23);
        }
        if part == encode_utf8("/mysql-async/"@) {
            lemma_system_part(path, i, j, 24);
        }
        if part == encode_utf8("/ox_lib/"@) {
            lemma_system_part(path, i, j, 25);
        }
    }
}

/// What lies in a directory of one of these names is of a system resource, wherever the directory
/// lies.
pub proof fn law_system_resources_by_name(a: Seq<u8>, b: Seq<u8>)
    ensures
        in_system_resource(a + encode_utf8("/fivem/"@) + b),
        in_system_resource(a + encode_utf8("/fivem-awesome1501/"@) + b),
        in_system_resource(a + encode_utf8("/fivem-map-hipster/"@) + b),
        in_system_resource(a + encode_utf8("/fivem-map-skater/"@) + b),
        in_system_resource(a + encode_utf8("/runcode/"@) + b),
        in_system_resource(a + encode_utf8("/race/"@) + b),
        in_system_resource(a + encode_utf8("/race-test/"@) + b),
        in_system_resource(a + encode_utf8("/channelfeed/"@) + b),
        in_system_resource(a + encode_utf8("/irc/"@) + b),
        in_system_resource(a + encode_utf8("/obituary/"@) + b),
        in_system_resource(a + encode_utf8("/obituary-deaths/"@) + b),
        in_system_resource(a + encode_utf8("/playernames/"@) + b),
        in_system_resource(a + encode_utf8("/mapmanager/"@) + b),
        in_system_resource(a + encode_utf8("/baseevents/"@) + b),
        in_system_resource(a + encode_utf8("/chat/"@) + b),
        in_system_resource(a + encode_utf8("/hardcap/"@) + b),
        in_system_resource(a + encode_utf8("/rconlog/"@) + b),
        in_system_resource(a + encode_utf8("/scoreboard/"@) + b),
        in_system_resource(a + encode_utf8("/sessionmanager/"@) + b),
        in_system_resource(a + encode_utf8("/spawnmanager/"@) + b),
        in_system_resource(a + encode_utf8("/yarn/"@) + b),
        in_system_resource(a + encode_utf8("/betaguns/"@) + b),
        in_system_resource(a + encode_utf8("/gameInit/"@) + b),
        in_system_resource(a + encode_utf8("/keks/"@) + b),
        in_system_resource(a + encode_utf8("/mysql-async/"@) + b),
        in_system_resource(a + encode_utf8("/ox_lib/"@) + b),
{
    assert(in_system_resource(a + encode_utf8("/fivem/"@) + b)) by {
        lemma_system_within(a, 0, b);
    }
    assert(in_system_resource(a + encode_utf8("/fivem-awesome1501/"@) + b)) by {
        lemma_system_within(a, 1, b);
    }
    assert(in_system_resource(a + encode_utf8("/fivem-map-hipster/"@) + b)) by {
        lemma_system_within(a, 2, b);
    }
    assert(in_system_resource(a + encode_utf8("/fivem-map-skater/"@) + b)) by {
        lemma_system_within(a, 3, b);
    }
    assert(in_system_resource(a + encode_utf8("/runcode/"@) + b)) by {
        lemma_system_within(a, 4, b);
    }
    assert(in_system_resource(a + encode_utf8("/race/"@) + b)) by {
        lemma_system_within(a, 5, b);
    }
    assert(in_system_resource(a + encode_utf8("/race-test/"@) + b)) by {
        lemma_system_within(a, 6, b);
    }
    assert(in_system_resource(a + encode_utf8("/channelfeed/"@) + b)) by {
        lemma_system_within(a, 7, b);
    }
    assert(in_system_resource(a + encode_utf8("/irc/"@) + b)) by {
        lemma_system_within(a, 8, b);
    }
    assert(in_system_resource(a + encode_utf8("/obituary/"@) + b)) by {
        lemma_system_within(a, 9, b);
    }
    assert(in_system_resource(a + encode_utf8("/obituary-deaths/"@) + b)) by {
        lemma_system_within(a, 10, b);
    }
    assert(in_system_resource(a + encode_utf8("/playernames/"@) + b)) by {
        lemma_system_within(a, 11, b);
    }
    assert(in_system_resource(a + encode_utf8("/mapmanager/"@) + b)) by {
        lemma_system_within(a, 12, b);
    }
    assert(in_system_resource(a + encode_utf8("/baseevents/"@) + b)) by {
        lemma_system_within(a, 13, b);
    }
    assert(in_system_resource(a + encode_utf8("/chat/"@) + b)) by {
        lemma_system_within(a, 14, b);
    }
    assert(in_system_resource(a + encode_utf8("/hardcap/"@) + b)) by {
        lemma_system_within(a, 15, b);
    }
    assert(in_system_resource(a + encode_utf8("/rconlog/"@) + b)) by {
        lemma_system_within(a, 16, b);
    }
    assert(in_system_resource(a + encode_utf8("/scoreboard/"@) + b)) by {
        lemma_system_within(a, 17, b);
    }
    assert(in_system_resource(a + encode_utf8("/sessionmanager/"@) + b)) by {
        lemma_system_within(a, 18, b);
    }
    assert(in_system_resource(a + encode_utf8("/spawnmanager/"@) + b)) by {
        lemma_system_within(a, 19, b);
    }
    assert(in_system_resource(a + encode_utf8("/yarn/"@) + b)) by {
        lemma_system_within(a, 20, b);
    }
    assert(in_system_resource(a + encode_utf8("/betaguns/"@) + b)) by {
        lemma_system_within(a, 21, b);
    }
    assert(in_system_resource(a + encode_utf8("/gameInit/"@) + b)) by {
        lemma_system_within(a, 22, b);
    }
    assert(in_system_resource(a + encode_utf8("/keks/"@) + b)) by {
        lemma_system_within(a, 23, b);
    }
    assert(in_system_resource(a + encode_utf8("/mysql-async/"@) + b)) by {
        lemma_system_within(a, 24, b);
    }
    assert(in_system_resource(a + encode_utf8("/ox_lib/"@) + b)) by {
        lemma_system_within(a, 25, b);
    }
}

proof fn lemma_system_within(a: Seq<u8>, k: int, b: Seq<u8>)
    requires
        0 <= k < 26,
    ensures
        in_system_resource(a + encode_utf8(between_slashes()[k]) + b),
{
    let part = encode_utf8(between_slashes()[k]);
    let path = a + part + b;
    assert(path.subrange(a.len() as int, (a.len() + part.len()) as int) =~= part);
    lemma_system_part(path, a.len() as int, (a.len() + part.len()) as int, k);
}

/// A script that no manifest declares runs on a side exactly where its path bears a mark of that
/// side, or none of the other. The marks are a directory of the name of the side and names that
/// begin with the letters of the side, in the path or as that of the file. The name of the file
/// counts where it is valid UTF-8.
pub proof fn law_sides_by_path(path: Seq<u8>)
    ensures
        ({
            let has = |text: Seq<char>|
                exists|i: int, j: int|
                    0 <= i <= j <= path.len() && #[trigger] path.subrange(i, j) == encode_utf8(
                        text,
                    );
            let begins = |text: Seq<char>|
                file_name(path) matches Some(name) && valid_utf8(name) && exists|rest: Seq<u8>|
                    name == #[trigger] (encode_utf8(text) + rest);
            let server = {
                ||| has("/server/"@)
                ||| has("/sv-"@)
                ||| has("/sv_"@)
                ||| begins("sv_"@)
                ||| begins("sv-"@)
                ||| begins("server."@)
            };
            let client = {
                ||| has("/client/"@)
                ||| has("/cl-"@)
                ||| has("/cl_"@)
                ||| begins("cl_"@)
                ||| begins("cl-"@)
                ||| begins("client."@)
            };
            &&& runs_on(path, true) <==> server || !client
            &&& runs_on(path, false) <==> client || !server
        }),
{
    lemma_has(path, "/server/"@);
    lemma_has(path, "/sv-"@);
    lemma_has(path, "/sv_"@);
    lemma_has(path, "/client/"@);
    lemma_has(path, "/cl-"@);
    lemma_has(path, "/cl_"@);
    reveal_strlit("sv_");
    reveal_strlit("sv-");
    reveal_strlit("server.");
    reveal_strlit("cl_");
    reveal_strlit("cl-");
    reveal_strlit("client.");
    lemma_begins(path, "sv_"@);
    lemma_begins(path, "sv-"@);
    lemma_begins(path, "server."@);
    lemma_begins(path, "cl_"@);
    lemma_begins(path, "cl-"@);
    lemma_begins(path, "client."@);
}

/// A script below a directory `client` runs on the client and not on the server, unless its path
/// bears a mark of the server.
pub proof fn law_client_scripts(a: Seq<u8>, b: Seq<u8>)
    ensures
        ({
            let path = a + encode_utf8("/client/"@) + b;
            (forall|i: int, j: int|
                0 <= i <= j <= path.len() ==> {
                    let part = #[trigger] path.subrange(i, j);
                    &&& part != encode_utf8("/server/"@)
                    &&& part != encode_utf8("/sv-"@)
                    &&& part != encode_utf8("/sv_"@)
                }) && (forall|rest: Seq<u8>|
                #![trigger encode_utf8("sv_"@) + rest]
                #![trigger encode_utf8("sv-"@) + rest]
                #![trigger encode_utf8("server."@) + rest]
                file_name(path) != Some(encode_utf8("sv_"@) + rest) && file_name(path) != Some(
                    encode_utf8("sv-"@) + rest,
                ) && file_name(path) != Some(encode_utf8("server."@) + rest)) ==> runs_on(
                path,
                false,
            ) && !runs_on(path, true)
        }),
{
    let part = encode_utf8("/client/"@);
    let path = a + part + b;
    assert(path.subrange(a.len() as int, (a.len() + part.len()) as int) =~= part);
    law_sides_by_path(path);
}

/// A script below a directory `server` runs on the server and not on the client, unless its path
/// bears a mark of the client.
pub proof fn law_server_scripts(a: Seq<u8>, b: Seq<u8>)
    ensures
        ({
            let path = a + encode_utf8("/server/"@) + b;
            (forall|i: int, j: int|
                0 <= i <= j <= path.len() ==> {
                    let part = #[trigger] path.subrange(i, j);
                    &&& part != encode_utf8("/client/"@)
                    &&& part != encode_utf8("/cl-"@)
                    &&& part != encode_utf8("/cl_"@)
                }) && (forall|rest: Seq<u8>|
                #![trigger encode_utf8("cl_"@) + rest]
                #![trigger encode_utf8("cl-"@) + rest]
                #![trigger encode_utf8("client."@) + rest]
                file_name(path) != Some(encode_utf8("cl_"@) + rest) && file_name(path) != Some(
                    encode_utf8("cl-"@) + rest,
                ) && file_name(path) != Some(encode_utf8("client."@) + rest)) ==> runs_on(
                path,
                true,
            ) && !runs_on(path, false)
        }),
{
    let part = encode_utf8("/server/"@);
    let path = a + part + b;
    assert(path.subrange(a.len() as int, (a.len() + part.len()) as int) =~= part);
    law_sides_by_path(path);
}

proof fn lemma_has(path: Seq<u8>, text: Seq<char>)
    ensures
        has_part(path, encode_utf8(text)) <==> exists|i: int, j: int|
            0 <= i <= j <= path.len() && #[trigger] path.subrange(i, j) == encode_utf8(text),
{
    let part = encode_utf8(text);
    if has_part(path, part) {
        let i = choose|i: int|
            0 <= i <= path.len() - part.len() && #[trigger] path.subrange(i, i + part.len())
                == part;
        assert(path.subrange(i, i + part.len()) == part);
    }
    if exists|i: int, j: int|
        0 <= i <= j <= path.len() && #[trigger] path.subrange(i, j) == part {
        let (i, j) = choose|i: int, j: int|
            0 <= i <= j <= path.len() && #[trigger] path.subrange(i, j) == part;
        assert(path.subrange(i, j).len() == j - i);
        assert(path.subrange(i, i + part.len()) == part);
    }
}

proof fn lemma_begins(path: Seq<u8>, text: Seq<char>)
    requires
        text.len() > 0,
    ensures
        begins_with(readable_name(path), encode_utf8(text)) <==> (file_name(
            path,
        ) matches Some(name) && valid_utf8(name) && exists|rest: Seq<u8>|
            name == #[trigger] (encode_utf8(text) + rest)),
{
    let part = encode_utf8(text);
    assert(part.len() > 0);
    law_parts(readable_name(path), part);
}

} // verus!
