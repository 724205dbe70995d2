//! What a command is asked to do: tables, schemas, and samples.
use crate::pools;
use crate::report;
use crate::text;
use crate::value;
use vstd::prelude::*;

verus! {

/// The pieces that are not empty once trimmed.
pub open spec fn kept_pieces(pieces: Seq<Seq<char>>) -> Seq<Seq<char>>
    decreases pieces.len(),
{
    if pieces.len() == 0 {
        Seq::empty()
    } else {
        let before = kept_pieces(pieces.drop_last());
        let last = text::trimmed(pieces.last());
        if last.len() == 0 {
            before
        } else {
            before.push(last)
        }
    }
}

/// The tables of a list: its pieces between commas, trimmed, without empty ones.
pub open spec fn table_list(tables: Seq<char>) -> Seq<Seq<char>> {
    kept_pieces(text::pieces(tables, ','))
}

/// Reads a list of tables.
pub fn split_tables(tables: &str) -> (r: Vec<String>)
    ensures
        r.deep_view() == table_list(tables@),
{
    let pieces = text::split(tables, ',');
    let ghost all = pieces.deep_view();
    let mut out: Vec<String> = Vec::new();
    let mut i: usize = 0;
    proof {
        assert(all.take(0) =~= Seq::empty());
        assert(out.deep_view() =~= Seq::empty());
    }
    while i < pieces.len()
        invariant
            i <= pieces@.len(),
            all == pieces.deep_view(),
            out.deep_view() == kept_pieces(all.take(i as int)),
        decreases pieces@.len() - i,
    {
        let ghost before = out.deep_view();
        proof {
            assert(all.take(i + 1).drop_last() =~= all.take(i as int));
            assert(all.take(i + 1).last() == pieces@[i as int]@);
        }
        let name = text::trim(pieces[i].as_str());
        let ghost kept = name@;
        proof {
            reveal_strlit("");
        }
        if !text::same(name.as_str(), "") {
            proof {
                if kept.len() == 0 {
                    assert(kept =~= ""@);
                }
            }
            out.push(name);
            proof {
                assert(out.deep_view() =~= before.push(kept));
            }
        }
        i = i + 1;
    }
    proof {
        assert(all.take(all.len() as int) =~= all);
    }
    out
}

/// The message for a table with a schema before it.
pub open spec fn dotted_text(name: Seq<char>) -> Seq<char> {
    let i = pools::first_dot(name);
    "--tables entry '"@ + name
        + "' uses schema-qualified `schema.table` notation, which is not supported; pass the table list without the qualifier and select the schema with `--schema "@
        + name.take(i) + "` (table: '"@ + name.skip(i + 1) + "')"@
}

/// The first table with a dot.
pub open spec fn first_dotted(tables: Seq<Seq<char>>, i: int) -> bool {
    &&& 0 <= i < tables.len()
    &&& tables[i].contains('.')
    &&& forall|k: int| 0 <= k < i ==> !(#[trigger] tables[k]).contains('.')
}

pub open spec fn some_dotted(tables: Seq<Seq<char>>, m: Seq<char>) -> bool {
    exists|i: int| #[trigger] first_dotted(tables, i) && m == dotted_text(tables[i])
}

proof fn lemma_dot(s: Seq<char>)
    ensures
        s.contains('.') <==> pools::first_dot(s) < s.len(),
        0 <= pools::first_dot(s) <= s.len(),
    decreases s.len(),
{
    if s.len() > 0 {
        if s[0] == '.' {
            assert(s.contains('.'));
        } else {
            let rest = s.skip(1);
            lemma_dot(rest);
            if s.contains('.') {
                assert(rest[s.index_of('.') - 1] == '.');
            }
            if rest.contains('.') {
                assert(s[rest.index_of('.') + 1] == '.');
            }
        }
    }
}

/// Refuses tables with a schema before them.
pub fn check_table_names(tables: &[String]) -> (r: Result<(), String>)
    ensures
        match r {
            Ok(_) => forall|i: int|
                0 <= i < tables@.len() ==> !(#[trigger] tables.deep_view()[i]).contains('.'),
            Err(m) => some_dotted(tables.deep_view(), m@),
        },
{
    let ghost all = tables.deep_view();
    let mut i: usize = 0;
    while i < tables.len()
        invariant
            i <= tables@.len(),
            all == tables.deep_view(),
            forall|k: int| 0 <= k < i ==> !(#[trigger] all[k]).contains('.'),
        decreases tables@.len() - i,
    {
        let chars = text::to_chars(tables[i].as_str());
        proof {
            assert(all[i as int] == tables@[i as int]@);
            lemma_dot(chars@);
            assert(chars@.skip(0) =~= chars@);
        }
        let at: usize = pools::find_dot(&chars, 0);
        if at < chars.len() {
            let schema = text::from_chars(vstd::slice::slice_subrange(chars.as_slice(), 0, at));
            let table = text::from_chars(
                vstd::slice::slice_subrange(chars.as_slice(), at + 1, chars.len()),
            );
            let mut m = text::around(
                "--tables entry '",
                tables[i].as_str(),
                "' uses schema-qualified `schema.table` notation, which is not supported; pass the table list without the qualifier and select the schema with `--schema ",
            );
            text::push_text(&mut m, schema.as_str());
            text::push_text(&mut m, "` (table: '");
            text::push_text(&mut m, table.as_str());
            text::push_text(&mut m, "')");
            proof {
                assert(schema@ =~= chars@.take(at as int));
                assert(table@ =~= chars@.skip(at + 1));
                assert(first_dotted(all, i as int));
            }
            return Err(m);
        }
        i = i + 1;
    }
    Ok(())
}

/// The tables that a command is asked for: at least one, none with a schema.
pub fn requested_tables(tables: &str) -> (r: Result<Vec<String>, String>)
    ensures
        match r {
            Ok(list) => {
                &&& list.deep_view() == table_list(tables@)
                &&& list@.len() > 0
                &&& forall|i: int|
                    0 <= i < list@.len() ==> !(#[trigger] list.deep_view()[i]).contains('.')
            },
            Err(m) => {
                ||| some_dotted(table_list(tables@), m@)
                ||| table_list(tables@).len() == 0 && m@
                    == "--tables must list at least one table"@
            },
        },
{
    let list = split_tables(tables);
    let names = list.as_slice();
    proof {
        assert(names.deep_view() =~= list.deep_view());
    }
    match check_table_names(names) {
        Ok(_) => {},
        Err(m) => {
            return Err(m);
        },
    }
    if list.len() == 0 {
        proof {
            assert(list.deep_view().len() == list@.len());
        }
        return Err("--tables must list at least one table".to_owned());
    }
    proof {
        assert forall|i: int| 0 <= i < list@.len() implies !(
        #[trigger] list.deep_view()[i]).contains('.') by {
            assert(!names.deep_view()[i].contains('.'));
        }
    }
    Ok(list)
}

/// A text that is given and not empty.
pub open spec fn filled(s: Option<Seq<char>>) -> bool {
    s is Some && s->0.len() > 0
}

fn is_filled(s: Option<&str>) -> (r: bool)
    ensures
        r == filled(s.deep_view()),
{
    match s {
        Some(t) => {
            proof {
                reveal_strlit("");
                if t@.len() == 0 {
                    assert(t@ =~= ""@);
                }
            }
            !text::same(t, "")
        },
        None => false,
    }
}

/// The schema that is asked for, or the connection's.
pub fn resolve_schema(explicit: Option<&str>, connection_default: String) -> (r: String)
    ensures
        r@ == if filled(explicit.deep_view()) {
            explicit->0@
        } else {
            connection_default@
        },
{
    let given = is_filled(explicit);
    match explicit {
        Some(s) => if given {
            s.to_owned()
        } else {
            connection_default
        },
        None => connection_default,
    }
}

/// The warning that a connection's name is not used, where the environment gives
/// the connection.
pub fn against_db_env_warning(name: Option<&str>, env_url_set: bool) -> (r: Option<String>)
    ensures
        match r {
            Some(w) => name is Some && env_url_set && w@
                == "warning: HEPTA_DBCLI_URL is set, so the --against-db connection name '"@
                + name->0@
                + "' is ignored (the env-var connection is always named 'default'); pass a --config file to address a named connection"@,
            None => name is None || !env_url_set,
        },
{
    match name {
        Some(n) => if env_url_set {
            Some(
                text::around(
                    "warning: HEPTA_DBCLI_URL is set, so the --against-db connection name '",
                    n,
                    "' is ignored (the env-var connection is always named 'default'); pass a --config file to address a named connection",
                ),
            )
        } else {
            None
        },
        None => None,
    }
}

/// The schema that is asked for, else the configured one; `None` where neither
/// is given, and the driver is to be asked.
pub fn schema_priority(explicit: Option<&str>, connection_default_schema: Option<&str>) -> (r:
    Option<String>)
    ensures
        r.deep_view() == (if filled(explicit.deep_view()) {
            explicit.deep_view()
        } else if filled(connection_default_schema.deep_view()) {
            connection_default_schema.deep_view()
        } else {
            None
        }),
{
    if is_filled(explicit) {
        match explicit {
            Some(s) => {
                return Some(s.to_owned());
            },
            None => {},
        }
    }
    if is_filled(connection_default_schema) {
        match connection_default_schema {
            Some(s) => {
                return Some(s.to_owned());
            },
            None => {},
        }
    }
    None
}

/// Where the Oracle driver stops without saying so.
pub const ORACLE_DRIVER_PREFETCH_CAP: usize = 100;

/// A sample that ends just where the Oracle driver stops, though more rows were
/// asked for.
pub fn sample_may_be_truncated(scheme: &str, row_count: usize, requested_sample: usize) -> (r:
    bool)
    ensures
        r == (text::alike(scheme@, "oracle"@) && row_count == ORACLE_DRIVER_PREFETCH_CAP
            && requested_sample > ORACLE_DRIVER_PREFETCH_CAP),
{
    text::same_fold(scheme, "oracle") && row_count == ORACLE_DRIVER_PREFETCH_CAP
        && requested_sample > ORACLE_DRIVER_PREFETCH_CAP
}

/// Where `://` stands in a text.
pub open spec fn scheme_end(url: Seq<char>, i: int) -> bool {
    0 <= i && i + 2 < url.len() && url[i] == ':' && url[i + 1] == '/' && url[i + 2] == '/'
}

/// What stands before the first `://` of an address; `mysql` where there is none.
pub fn url_scheme(url: &str) -> (r: String)
    ensures
        (exists|i: int| #[trigger] scheme_end(url@, i)) ==> exists|i: int| #[trigger]
            scheme_end(url@, i) && (forall|k: int| k < i ==> !#[trigger] scheme_end(url@, k))
                && r@ == url@.take(i),
        forall|i: int| #[trigger]
            scheme_end(url@, i) && (forall|k: int| 0 <= k < i ==> !#[trigger] scheme_end(url@, k))
                ==> r@ == url@.take(i),
        (forall|i: int| !#[trigger] scheme_end(url@, i)) ==> r@ == "mysql"@,
{
    let chars = text::to_chars(url);
    let mut i: usize = 0;
    while i < chars.len() && chars.len() - i > 2
        invariant
            i <= chars@.len(),
            chars@ == url@,
            forall|k: int| k < i ==> !#[trigger] scheme_end(url@, k),
        decreases chars@.len() - i,
    {
        if chars[i] == ':' && chars[i + 1] == '/' && chars[i + 2] == '/' {
            let r = text::from_chars(vstd::slice::slice_subrange(chars.as_slice(), 0, i));
            proof {
                assert(scheme_end(url@, i as int));
                assert(r@ =~= url@.take(i as int));
            }
            return r;
        }
        i = i + 1;
    }
    proof {
        assert forall|k: int| !#[trigger] scheme_end(url@, k) by {
            if k >= i {
                assert(k + 2 >= url@.len());
            }
        }
    }
    "mysql".to_owned()
}

/// The connection that is used: the one that is asked for, else the default one.
/// Where there is none of that name the message lists those that there are.
pub fn resolve_connection(name: Option<&str>, default_name: &str, connections: &[String]) -> (r:
    Result<usize, String>)
    ensures
        ({
            let target = match name {
                Some(n) => n@,
                None => default_name@,
            };
            match r {
                Ok(i) => connections.deep_view().contains(target) && i == value::first_place(
                    connections.deep_view(),
                    target,
                ),
                Err(m) => !connections.deep_view().contains(target) && m@ == "connection '"@
                    + target + "' not found\n  available: "@ + report::debug_list(
                    connections.deep_view(),
                ),
            }
        }),
{
    let target: &str = match name {
        Some(n) => n,
        None => default_name,
    };
    match value::find_name(connections, target) {
        Some(i) => Ok(i),
        None => {
            let mut m = text::around("connection '", target, "' not found\n  available: ");
            text::push_text(&mut m, report::write_debug_list(connections).as_str());
            Err(m)
        },
    }
}

/// A text ends in another.
pub open spec fn ends_in(s: Seq<char>, ending: Seq<char>) -> bool {
    s.len() >= ending.len() && s.skip(s.len() - ending.len()) == ending
}

/// The table that a file in a models directory belongs to, by the ending of its
/// name.
pub fn table_of_file(file: &str, ending: &str) -> (r: Option<String>)
    ensures
        r.deep_view() == (if ends_in(file@, ending@) {
            Some(file@.take(file@.len() - ending@.len()))
        } else {
            None
        }),
{
    let all = text::to_chars(file);
    let tail = text::to_chars(ending);
    if all.len() < tail.len() {
        return None;
    }
    let whole: usize = all.len();
    let start: usize = whole - tail.len();
    let mut i: usize = 0;
    while i < tail.len()
        invariant
            i <= tail@.len(),
            whole == all@.len(),
            start + tail@.len() == whole,
            all@ == file@,
            tail@ == ending@,
            forall|k: int| 0 <= k < i ==> #[trigger] tail@[k] == all@[start + k],
        decreases tail@.len() - i,
    {
        if all[start + i] != tail[i] {
            proof {
                assert(file@.skip(start as int)[i as int] != ending@[i as int]);
            }
            return None;
        }
        i = i + 1;
    }
    proof {
        assert(file@.skip(start as int) =~= ending@);
    }
    let mut table: Vec<char> = Vec::new();
    let mut k: usize = 0;
    while k < start
        invariant
            k <= start,
            start <= all@.len(),
            table@ == all@.take(k as int),
        decreases start - k,
    {
        table.push(all[k]);
        proof {
            assert(all@.take(k + 1) =~= all@.take(k as int).push(all@[k as int]));
        }
        k = k + 1;
    }
    Some(text::from_chars(table.as_slice()))
}

} // verus!
