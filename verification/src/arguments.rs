//! What the arguments of the command-line tool come to.

use crate::cli::{
    all_values, copy_args, create_args, delete_args, file_args, first_missing, insert_args,
    insert_vector_args, last_value, pairs_given, parsed, scan, search_args, search_vector_args,
    source_of, sources_of, ArgsView,
};
use crate::db::{Encoding, IndexKind};
use crate::float::F32;
use crate::record::{keys_ascending, lemma_insert_membership, RecordView};
use crate::text::{
    decimal, lemma_number_read_back, lemma_split, lemma_without_prefix, split_at_first,
    without_prefix,
};
use vstd::prelude::*;

verus! {

/// Arguments that are accepted are told apart in the same way with more behind
/// them.
proof fn lemma_scan_more(
    tokens: Seq<Seq<char>>,
    more: Seq<Seq<char>>,
    booleans: Seq<Seq<char>>,
    i: int,
    found: ArgsView,
)
    requires
        0 <= i <= tokens.len(),
        scan(tokens, booleans, i, found) is Ok,
    ensures
        scan(tokens + more, booleans, i, found) == scan(
            tokens + more,
            booleans,
            tokens.len() as int,
            scan(tokens, booleans, i, found)->Ok_0,
        ),
    decreases tokens.len() - i,
{
    let all = tokens + more;
    if i < tokens.len() {
        assert(all[i] == tokens[i]);
        if i + 1 < tokens.len() {
            assert(all[i + 1] == tokens[i + 1]);
        }
        match without_prefix(tokens[i], "--"@) {
            Some(name) => match split_at_first(name, '=') {
                Some((name, value)) => {
                    lemma_scan_more(tokens, more, booleans, i + 1, found.with_flag(name, value));
                },
                None => {
                    if booleans.contains(name) {
                        let next = found.with_flag(name, "true"@);
                        lemma_scan_more(tokens, more, booleans, i + 1, next);
                    } else {
                        let next = found.with_flag(name, tokens[i + 1]);
                        lemma_scan_more(tokens, more, booleans, i + 2, next);
                    }
                },
            },
            None => {
                if tokens[i] == "-k"@ {
                    let next = found.with_flag("limit"@, tokens[i + 1]);
                    lemma_scan_more(tokens, more, booleans, i + 2, next);
                } else {
                    let next = found.with_positional(tokens[i]);
                    lemma_scan_more(tokens, more, booleans, i + 1, next);
                }
            },
        }
    }
}

/// A flag behind accepted arguments is one more flag, and changes nothing else:
/// `--name=value`, and `--name value` where the flag takes a value, give the name
/// that value; `--name` alone gives a flag that takes none the value `true`, and
/// is refused where the flag takes one. `-k value` is `--limit value`.
pub proof fn lemma_one_more_flag(
    tokens: Seq<Seq<char>>,
    booleans: Seq<Seq<char>>,
    name: Seq<char>,
    value: Seq<char>,
)
    requires
        parsed(tokens, booleans) is Ok,
        !name.contains('='),
    ensures
        ({
            let args = parsed(tokens, booleans)->Ok_0;
            let flag = "--"@ + name;
            let given = Ok::<ArgsView, Seq<char>>(
                ArgsView { flags: args.flags.push((name, value)), ..args },
            );
            &&& parsed(tokens + seq![flag + seq!['='] + value], booleans) == given
            &&& !booleans.contains(name) ==> parsed(tokens + seq![flag, value], booleans) == given
            &&& !booleans.contains(name) ==> parsed(tokens + seq![flag], booleans) is Err
            &&& booleans.contains(name) ==> parsed(tokens + seq![flag], booleans) == Ok::<
                ArgsView,
                Seq<char>,
            >(ArgsView { flags: args.flags.push((name, "true"@)), ..args })
            &&& parsed(tokens + seq!["-k"@, value], booleans) == Ok::<ArgsView, Seq<char>>(
                ArgsView { flags: args.flags.push(("limit"@, value)), ..args },
            )
        }),
{
    let start = ArgsView { positionals: Seq::empty(), flags: Seq::empty() };
    reveal_with_fuel(scan, 2);
    let args = parsed(tokens, booleans)->Ok_0;
    let n = tokens.len() as int;
    let flag = "--"@ + name;
    let whole = flag + seq!['='] + value;
    let rest = name + seq!['='] + value;
    // Both in one argument.
    let more = seq![whole];
    assert(whole =~= "--"@ + rest);
    lemma_without_prefix(whole, "--"@, rest);
    lemma_split(rest, '=', name, value);
    lemma_scan_more(tokens, more, booleans, 0, start);
    assert((tokens + more)[n] == whole);
    // The value in an argument of its own.
    let more = seq![flag, value];
    lemma_without_prefix(flag, "--"@, name);
    lemma_split(name, '=', name, value);
    lemma_scan_more(tokens, more, booleans, 0, start);
    assert((tokens + more)[n] == flag && (tokens + more)[n + 1] == value);
    // No value.
    let more = seq![flag];
    lemma_scan_more(tokens, more, booleans, 0, start);
    assert((tokens + more)[n] == flag);
    // The short form.
    let more = seq!["-k"@, value];
    lemma_scan_more(tokens, more, booleans, 0, start);
    assert((tokens + more)[n] == "-k"@ && (tokens + more)[n + 1] == value);
    lemma_short_form("-k"@);
}

proof fn lemma_short_form(token: Seq<char>)
    requires
        token == "-k"@,
    ensures
        without_prefix(token, "--"@) is None,
{
    reveal_strlit("-k");
    reveal_strlit("--");
    assert(token.take(2)[1] == 'k');
}

/// An argument that is no flag, behind accepted arguments, is one more positional.
pub proof fn lemma_one_more_positional(
    tokens: Seq<Seq<char>>,
    booleans: Seq<Seq<char>>,
    token: Seq<char>,
)
    requires
        parsed(tokens, booleans) is Ok,
        token != "-k"@,
        forall|rest: Seq<char>| token != #[trigger] ("--"@ + rest),
    ensures
        ({
            let args = parsed(tokens, booleans)->Ok_0;
            parsed(tokens + seq![token], booleans) == Ok::<ArgsView, Seq<char>>(
                ArgsView { positionals: args.positionals.push(token), ..args },
            )
        }),
{
    let start = ArgsView { positionals: Seq::empty(), flags: Seq::empty() };
    reveal_with_fuel(scan, 2);
    let n = tokens.len() as int;
    lemma_scan_more(tokens, seq![token], booleans, 0, start);
    assert((tokens + seq![token])[n] == token);
    if let Some(rest) = without_prefix(token, "--"@) {
        lemma_without_prefix(token, "--"@, rest);
        assert(token == "--"@ + rest);
    }
}

/// `(key, value)` is given by the last of the flags called `name` that is of the
/// form `key=...`.
pub open spec fn given_last(
    flags: Seq<(Seq<char>, Seq<char>)>,
    name: Seq<char>,
    key: Seq<char>,
    value: Seq<char>,
) -> bool {
    &&& !key.contains('=')
    &&& exists|i: int|
        0 <= i < flags.len() && #[trigger] flags[i] == (name, key + seq!['='] + value) && forall|
            j: int,
            other: Seq<char>,
        |
            i < j < flags.len() ==> #[trigger] flags[j] != (
                name,
                #[trigger] (key + seq!['='] + other),
            )
}

/// What one more flag does to the pair that is given last for a key.
proof fn lemma_given_push(
    front: Seq<(Seq<char>, Seq<char>)>,
    last: (Seq<char>, Seq<char>),
    name: Seq<char>,
    key: Seq<char>,
    value: Seq<char>,
)
    ensures
        last.0 != name ==> (given_last(front.push(last), name, key, value) <==> given_last(
            front,
            name,
            key,
            value,
        )),
        forall|k: Seq<char>, v: Seq<char>|
            last == (name, #[trigger] (k + seq!['='] + v)) && !k.contains('=') ==> {
                &&& k == key ==> (given_last(front.push(last), name, key, value) <==> v == value)
                &&& k != key ==> (given_last(front.push(last), name, key, value) <==> given_last(
                    front,
                    name,
                    key,
                    value,
                ))
            },
{
    let flags = front.push(last);
    let n = front.len() as int;
    let pair = (name, key + seq!['='] + value);
    if !key.contains('=') {
        // The new flag gives another key, or is another flag.
        let apart = forall|other: Seq<char>| last != (name, #[trigger] (key + seq!['='] + other));
        if apart {
            if given_last(flags, name, key, value) {
                let i = choose|i: int|
                    0 <= i < flags.len() && #[trigger] flags[i] == pair && forall|
                        j: int,
                        other: Seq<char>,
                    |
                        i < j < flags.len() ==> #[trigger] flags[j] != (
                            name,
                            #[trigger] (key + seq!['='] + other),
                        );
                assert(i < n);
                assert(front[i] == pair);
                assert forall|j: int, other: Seq<char>|
                    i < j < front.len() implies #[trigger] front[j] != (
                    name,
                    #[trigger] (key + seq!['='] + other),
                ) by {
                    assert(flags[j] == front[j]);
                }
            }
            if given_last(front, name, key, value) {
                let i = choose|i: int|
                    0 <= i < front.len() && #[trigger] front[i] == pair && forall|
                        j: int,
                        other: Seq<char>,
                    |
                        i < j < front.len() ==> #[trigger] front[j] != (
                            name,
                            #[trigger] (key + seq!['='] + other),
                        );
                assert(flags[i] == pair);
                assert forall|j: int, other: Seq<char>|
                    i < j < flags.len() implies #[trigger] flags[j] != (
                    name,
                    #[trigger] (key + seq!['='] + other),
                ) by {
                    if j < n {
                        assert(flags[j] == front[j]);
                    }
                }
            }
        }
        assert forall|k: Seq<char>, v: Seq<char>|
            last == (name, #[trigger] (k + seq!['='] + v)) && !k.contains('=') implies {
            &&& k == key ==> (given_last(flags, name, key, value) <==> v == value)
            &&& k != key ==> apart
        } by {
            lemma_split(last.1, '=', k, v);
            if k == key {
                if v == value {
                    assert(flags[n] == pair);
                }
                if given_last(flags, name, key, value) {
                    let i = choose|i: int|
                        0 <= i < flags.len() && #[trigger] flags[i] == pair && forall|
                            j: int,
                            other: Seq<char>,
                        |
                            i < j < flags.len() ==> #[trigger] flags[j] != (
                                name,
                                #[trigger] (key + seq!['='] + other),
                            );
                    assert(flags[n] == (name, key + seq!['='] + v));
                    assert(i == n);
                    lemma_split(last.1, '=', key, value);
                }
            } else {
                assert forall|other: Seq<char>| last != (
                    name,
                    #[trigger] (key + seq!['='] + other),
                ) by {
                    lemma_split(last.1, '=', key, other);
                }
            }
        }
    }
}

/// The pairs that flags come to are those given last for their keys.
proof fn lemma_pairs_of_flags(
    label: Seq<char>,
    flags: Seq<(Seq<char>, Seq<char>)>,
    name: Seq<char>,
)
    requires
        pairs_given(label, all_values(flags, name)) is Ok,
    ensures
        ({
            let pairs = pairs_given(label, all_values(flags, name))->Ok_0;
            &&& keys_ascending(pairs)
            &&& forall|key: Seq<char>, value: Seq<char>| #[trigger]
                pairs.contains((key, value)) <==> given_last(flags, name, key, value)
            &&& forall|i: int|
                0 <= i < flags.len() && (#[trigger] flags[i]).0 == name ==> flags[i].1.contains('=')
        }),
    decreases flags.len(),
{
    let values = all_values(flags, name);
    let pairs = pairs_given(label, values)->Ok_0;
    if flags.len() == 0 {
        assert(pairs =~= Seq::empty());
    } else {
        let front = flags.drop_last();
        let last = flags.last();
        assert(flags =~= front.push(last));
        if last.0 == name {
            assert(values.drop_last() =~= all_values(front, name));
        }
        lemma_pairs_of_flags(label, front, name);
        let before = pairs_given(label, all_values(front, name))->Ok_0;
        if last.0 == name {
            let (k, v) = split_at_first(last.1, '=')->0;
            lemma_split(last.1, '=', k, v);
            assert(last == (name, k + seq!['='] + v));
            lemma_insert_membership(before, k, v, k, v);
            assert forall|key: Seq<char>, value: Seq<char>| #[trigger]
                pairs.contains((key, value)) <==> given_last(flags, name, key, value) by {
                lemma_given_push(front, last, name, key, value);
                lemma_insert_membership(before, k, v, key, value);
                let _ = before.contains((key, value));
            }
        } else {
            assert forall|key: Seq<char>, value: Seq<char>| #[trigger]
                pairs.contains((key, value)) <==> given_last(flags, name, key, value) by {
                lemma_given_push(front, last, name, key, value);
                let _ = before.contains((key, value));
            }
        }
        assert forall|i: int|
            0 <= i < flags.len() && (#[trigger] flags[i]).0 == name implies flags[i].1.contains(
            '=',
        ) by {
            if i < front.len() {
                assert(flags[i] == front[i]);
            }
        }
    }
}

/// The metadata of an accepted insertion is what its `--meta key=value` arguments
/// say: a pair is among it exactly where the last `--meta` with that key has that
/// value. So two such arguments with different keys give both pairs. Every
/// `--meta` of an accepted insertion has an equals sign.
pub proof fn lemma_insert_metadata(tokens: Seq<Seq<char>>, vector: Seq<F32>)
    requires
        insert_args(tokens, vector) is Ok,
    ensures
        ({
            let record = insert_args(tokens, vector)->Ok_0.1;
            parsed(tokens, seq!["upsert"@]) matches Ok(args) && {
                &&& keys_ascending(record.metadata)
                &&& forall|key: Seq<char>, value: Seq<char>| #[trigger]
                    record.metadata.contains((key, value)) <==> given_last(
                        args.flags,
                        "meta"@,
                        key,
                        value,
                    )
                &&& forall|i: int|
                    0 <= i < args.flags.len() && (#[trigger] args.flags[i]).0 == "meta"@
                        ==> args.flags[i].1.contains('=')
            }
        }),
{
    let args = parsed(tokens, seq!["upsert"@])->Ok_0;
    lemma_pairs_of_flags("--meta"@, args.flags, "meta"@);
}

/// The last value of a flag is that of the last flag so called, and there is none
/// only where no flag is so called; all its values are those of the flags so
/// called, in order, and so one more flag adds one more value.
pub proof fn lemma_flag_values(
    flags: Seq<(Seq<char>, Seq<char>)>,
    name: Seq<char>,
    value: Seq<char>,
)
    ensures
        last_value(flags, name) == Some(value) <==> exists|i: int|
            0 <= i < flags.len() && #[trigger] flags[i] == (name, value) && forall|j: int|
                i < j < flags.len() ==> (#[trigger] flags[j]).0 != name,
        last_value(flags, name) is None <==> forall|i: int|
            0 <= i < flags.len() ==> (#[trigger] flags[i]).0 != name,
        all_values(flags, name) == flags.filter(
            |f: (Seq<char>, Seq<char>)| f.0 == name,
        ).map_values(|f: (Seq<char>, Seq<char>)| f.1),
    decreases flags.len(),
{
    reveal(Seq::filter);
    let keep = |f: (Seq<char>, Seq<char>)| f.0 == name;
    let value_of = |f: (Seq<char>, Seq<char>)| f.1;
    if flags.len() == 0 {
        assert(flags.filter(keep).map_values(value_of) =~= all_values(flags, name));
    } else {
        let front = flags.drop_last();
        let last = flags.last();
        let n = front.len() as int;
        lemma_flag_values(front, name, value);
        assert(flags[n] == last);
        let kept = front.filter(keep);
        assert(kept.push(last).map_values(value_of) =~= kept.map_values(value_of).push(last.1));
        if last.0 == name {
            if last.1 == value {
                assert(flags[n] == (name, value));
            }
        } else {
            if last_value(front, name) == Some(value) {
                let i = choose|i: int|
                    0 <= i < front.len() && #[trigger] front[i] == (name, value) && forall|j: int|
                        i < j < front.len() ==> (#[trigger] front[j]).0 != name;
                assert(flags[i] == (name, value));
                assert forall|j: int| i < j < flags.len() implies (
                #[trigger] flags[j]).0 != name by {
                    if j < n {
                        assert(flags[j] == front[j]);
                    }
                }
            }
            if exists|i: int|
                0 <= i < flags.len() && #[trigger] flags[i] == (name, value) && forall|j: int|
                    i < j < flags.len() ==> (#[trigger] flags[j]).0 != name {
                let i = choose|i: int|
                    0 <= i < flags.len() && #[trigger] flags[i] == (name, value) && forall|j: int|
                        i < j < flags.len() ==> (#[trigger] flags[j]).0 != name;
                assert(i < n);
                assert(front[i] == (name, value));
                assert forall|j: int| i < j < front.len() implies (
                #[trigger] front[j]).0 != name by {
                    assert(flags[j] == front[j]);
                }
            }
            if last_value(front, name) is None {
                assert forall|i: int| 0 <= i < flags.len() implies (
                #[trigger] flags[i]).0 != name by {
                    if i < n {
                        assert(flags[i] == front[i]);
                    }
                }
            }
            if forall|i: int| 0 <= i < flags.len() ==> (#[trigger] flags[i]).0 != name {
                assert forall|i: int| 0 <= i < front.len() implies (
                #[trigger] front[i]).0 != name by {
                    assert(flags[i] == front[i]);
                }
            }
        }
    }
}

proof fn lemma_flag_names()
    ensures
        !"id"@.contains('='),
        !"text"@.contains('='),
        !"meta"@.contains('='),
        !"upsert"@.contains('='),
        !"limit"@.contains('='),
        !"filter"@.contains('='),
        !"mmap"@.contains('='),
        "id"@.len() == 2,
        "text"@.len() == 4,
        "meta"@.len() == 4,
        "text"@[0] != "meta"@[0],
        "upsert"@.len() == 6,
        "vector"@.len() == 6,
        "vector"@[0] != "upsert"@[0],
        "limit"@.len() == 5,
        "filter"@.len() == 6,
        "filter"@[0] != "vector"@[0],
        "mmap"@.len() == 4,
{
    reveal_strlit("id");
    reveal_strlit("text");
    reveal_strlit("meta");
    reveal_strlit("upsert");
    reveal_strlit("vector");
    reveal_strlit("limit");
    reveal_strlit("filter");
    reveal_strlit("mmap");
}

/// What one more argument does to an accepted insertion. `--meta key=value` puts
/// the pair among the metadata in place of any with that key, and leaves every
/// other pair and everything else as it was; `--text` replaces the text, `--id`
/// the id, and `--upsert` asks for replacing, each and nothing else.
pub proof fn lemma_insert_one_more(
    tokens: Seq<Seq<char>>,
    vector: Seq<F32>,
    key: Seq<char>,
    value: Seq<char>,
    other: Seq<char>,
    id: u64,
)
    requires
        insert_args(tokens, vector) is Ok,
        !key.contains('='),
    ensures
        ({
            let (file, r, upsert) = insert_args(tokens, vector)->Ok_0;
            &&& insert_args(tokens + seq!["--meta"@, key + seq!['='] + value], vector) matches Ok(
                (f, q, u),
            ) && {
                &&& f == file
                &&& q == (RecordView { metadata: q.metadata, ..r })
                &&& u == upsert
                &&& q.metadata.contains((key, value))
                &&& q.metadata.contains((key, other)) ==> other == value
                &&& other != key ==> (q.metadata.contains((other, value)) <==> r.metadata.contains(
                    (other, value),
                ))
            }
            &&& insert_args(tokens + seq!["--text"@, value], vector) == Ok::<
                (Seq<char>, RecordView, bool),
                Seq<char>,
            >((file, RecordView { text: value, ..r }, upsert))
            &&& insert_args(tokens + seq!["--id"@, decimal(id as nat)], vector) == Ok::<
                (Seq<char>, RecordView, bool),
                Seq<char>,
            >((file, RecordView { id, ..r }, upsert))
            &&& insert_args(tokens + seq!["--upsert"@], vector) == Ok::<
                (Seq<char>, RecordView, bool),
                Seq<char>,
            >((file, r, true))
        }),
{
    let booleans = seq!["upsert"@];
    let args = parsed(tokens, booleans)->Ok_0;
    let pair = key + seq!['='] + value;
    lemma_flag_names();
    lemma_dashes();
    assert(booleans[0] == "upsert"@);
    assert(booleans.contains("upsert"@));
    lemma_one_more_flag(tokens, booleans, "meta"@, pair);
    lemma_one_more_flag(tokens, booleans, "text"@, value);
    lemma_one_more_flag(tokens, booleans, "id"@, decimal(id as nat));
    lemma_one_more_flag(tokens, booleans, "upsert"@, value);
    lemma_pushed(args.flags, ("meta"@, pair));
    lemma_pushed(args.flags, ("text"@, value));
    lemma_pushed(args.flags, ("id"@, decimal(id as nat)));
    lemma_pushed(args.flags, ("upsert"@, "true"@));
    lemma_number_read_back(id as nat, u64::MAX as nat);
    // The pairs after one more.
    let before = all_values(args.flags, "meta"@);
    lemma_pairs_of_flags("--meta"@, args.flags, "meta"@);
    lemma_split(pair, '=', key, value);
    assert(before.push(pair).drop_last() =~= before);
    let pairs = pairs_given("--meta"@, before)->Ok_0;
    lemma_insert_membership(pairs, key, value, other, value);
    lemma_insert_membership(pairs, key, value, other, other);
}

/// What one more flag does to the values of each.
proof fn lemma_pushed(flags: Seq<(Seq<char>, Seq<char>)>, flag: (Seq<char>, Seq<char>))
    ensures
        forall|name: Seq<char>| #[trigger]
            last_value(flags.push(flag), name) == if name == flag.0 {
                Some(flag.1)
            } else {
                last_value(flags, name)
            },
        forall|name: Seq<char>| #[trigger]
            all_values(flags.push(flag), name) == if name == flag.0 {
                all_values(flags, name).push(flag.1)
            } else {
                all_values(flags, name)
            },
{
    assert(flags.push(flag).drop_last() =~= flags);
}

proof fn lemma_dashes()
    ensures
        "--meta"@ == "--"@ + "meta"@,
        "--text"@ == "--"@ + "text"@,
        "--id"@ == "--"@ + "id"@,
        "--upsert"@ == "--"@ + "upsert"@,
        "--filter"@ == "--"@ + "filter"@,
        "--mmap"@ == "--"@ + "mmap"@,
{
    reveal_strlit("--");
    reveal_strlit("meta");
    reveal_strlit("--meta");
    reveal_strlit("text");
    reveal_strlit("--text");
    reveal_strlit("id");
    reveal_strlit("--id");
    reveal_strlit("upsert");
    reveal_strlit("--upsert");
    reveal_strlit("filter");
    reveal_strlit("--filter");
    reveal_strlit("mmap");
    reveal_strlit("--mmap");
    assert("--meta"@ =~= "--"@ + "meta"@);
    assert("--text"@ =~= "--"@ + "text"@);
    assert("--id"@ =~= "--"@ + "id"@);
    assert("--upsert"@ =~= "--"@ + "upsert"@);
    assert("--filter"@ =~= "--"@ + "filter"@);
    assert("--mmap"@ =~= "--"@ + "mmap"@);
}

/// What one more argument does to an accepted search: `-k` replaces the limit,
/// `--filter` adds one more filter behind the others, and `--mmap` asks for a
/// search in place, each and nothing else. Without a limit it is ten.
pub proof fn lemma_search_one_more(tokens: Seq<Seq<char>>, value: Seq<char>, limit: usize)
    requires
        search_args(tokens) is Ok,
    ensures
        ({
            let (file, before, filters, mmap) = search_args(tokens)->Ok_0;
            &&& search_args(tokens + seq!["-k"@, decimal(limit as nat)]) == Ok::<
                (Seq<char>, nat, Seq<Seq<char>>, bool),
                Seq<char>,
            >((file, limit as nat, filters, mmap))
            &&& search_args(tokens + seq!["--filter"@, value]) == Ok::<
                (Seq<char>, nat, Seq<Seq<char>>, bool),
                Seq<char>,
            >((file, before, filters.push(value), mmap))
            &&& search_args(tokens + seq!["--mmap"@]) == Ok::<
                (Seq<char>, nat, Seq<Seq<char>>, bool),
                Seq<char>,
            >((file, before, filters, true))
            &&& parsed(tokens, seq!["mmap"@]) matches Ok(args) && ((forall|i: int|
                0 <= i < args.flags.len() ==> (#[trigger] args.flags[i]).0 != "limit"@)
                ==> before == 10)
        }),
{
    let booleans = seq!["mmap"@];
    let args = parsed(tokens, booleans)->Ok_0;
    lemma_flag_names();
    lemma_dashes();
    assert(booleans[0] == "mmap"@);
    assert(booleans.contains("mmap"@));
    lemma_one_more_flag(tokens, booleans, "limit"@, decimal(limit as nat));
    lemma_one_more_flag(tokens, booleans, "filter"@, value);
    lemma_one_more_flag(tokens, booleans, "mmap"@, value);
    lemma_pushed(args.flags, ("limit"@, decimal(limit as nat)));
    lemma_pushed(args.flags, ("filter"@, value));
    lemma_pushed(args.flags, ("mmap"@, "true"@));
    lemma_number_read_back(limit as nat, usize::MAX as nat);
    lemma_flag_values(args.flags, "limit"@, value);
    lemma_number_read_back(10, usize::MAX as nat);
    assert("10"@ == decimal(10)) by {
        reveal_strlit("10");
        reveal_with_fuel(decimal, 2);
        assert("10"@ =~= decimal(10));
    }
}

/// The filter of a search is what its `key=value` filters say: a pair is in it
/// exactly where the last of them with that key has that value.
pub proof fn lemma_filter_pairs(label: Seq<char>, values: Seq<Seq<char>>)
    requires
        pairs_given(label, values) is Ok,
    ensures
        ({
            let pairs = pairs_given(label, values)->Ok_0;
            let flags = values.map_values(|v: Seq<char>| (label, v));
            &&& keys_ascending(pairs)
            &&& forall|key: Seq<char>, value: Seq<char>| #[trigger]
                pairs.contains((key, value)) <==> given_last(flags, label, key, value)
            &&& forall|i: int| 0 <= i < values.len() ==> (#[trigger] values[i]).contains('=')
        }),
{
    let flags = values.map_values(|v: Seq<char>| (label, v));
    lemma_values_of_flags(label, values);
    lemma_pairs_of_flags(label, flags, label);
    assert forall|i: int| 0 <= i < values.len() implies (#[trigger] values[i]).contains('=') by {
        assert(flags[i] == (label, values[i]));
    }
}

proof fn lemma_values_of_flags(label: Seq<char>, values: Seq<Seq<char>>)
    ensures
        all_values(values.map_values(|v: Seq<char>| (label, v)), label) == values,
    decreases values.len(),
{
    let flags = values.map_values(|v: Seq<char>| (label, v));
    if values.len() > 0 {
        lemma_values_of_flags(label, values.drop_last());
        assert(flags.drop_last() =~= values.drop_last().map_values(|v: Seq<char>| (label, v)));
        assert(all_values(flags, label) =~= values);
    } else {
        assert(all_values(flags, label) =~= values);
    }
}

/// The file that a command works on is its first positional argument, and the
/// target of a copy is its second.
pub proof fn lemma_files(
    tokens: Seq<Seq<char>>,
    vector: Seq<F32>,
    from: Seq<char>,
    to: Seq<char>,
)
    ensures
        create_args(tokens) matches Ok((file, _, _, _)) ==> (parsed(
            tokens,
            seq!["upsert"@],
        ) matches Ok(args) && args.positionals.len() > 0 && file == args.positionals[0]),
        insert_args(tokens, vector) matches Ok((file, _, _)) ==> (parsed(
            tokens,
            seq!["upsert"@],
        ) matches Ok(args) && args.positionals.len() > 0 && file == args.positionals[0]),
        search_args(tokens) matches Ok((file, _, _, _)) ==> (parsed(
            tokens,
            seq!["mmap"@],
        ) matches Ok(args) && args.positionals.len() > 0 && file == args.positionals[0]),
        delete_args(tokens) matches Ok((file, _)) ==> (parsed(tokens, Seq::empty()) matches Ok(args)
            && args.positionals.len() > 0 && file == args.positionals[0]),
        file_args(tokens) matches Ok(file) ==> (parsed(tokens, Seq::empty()) matches Ok(args)
            && args.positionals.len() > 0 && file == args.positionals[0]),
        copy_args(tokens, from, to) matches Ok((source, target)) ==> (parsed(
            tokens,
            Seq::empty(),
        ) matches Ok(args) && args.positionals.len() > 1 && source == args.positionals[0] && target
            == args.positionals[1]),
{
}

/// What is not said: without `--text` the text is empty, without `--upsert` nothing
/// is to be replaced, without `--index` and `--encoding` a collection has an exact
/// index and full precision.
pub proof fn lemma_defaults(tokens: Seq<Seq<char>>, vector: Seq<F32>)
    ensures
        insert_args(tokens, vector) matches Ok((_, record, upsert)) ==> (parsed(
            tokens,
            seq!["upsert"@],
        ) matches Ok(args) && {
            &&& record.vector == vector
            &&& (forall|i: int|
                0 <= i < args.flags.len() ==> (#[trigger] args.flags[i]).0 != "text"@)
                ==> record.text.len() == 0
            &&& upsert <==> exists|i: int|
                0 <= i < args.flags.len() && (#[trigger] args.flags[i]).0 == "upsert"@
        }),
        create_args(tokens) matches Ok((_, _, kind, encoding)) ==> (parsed(
            tokens,
            seq!["upsert"@],
        ) matches Ok(args) && {
            &&& (forall|i: int|
                0 <= i < args.flags.len() ==> (#[trigger] args.flags[i]).0 != "index"@) ==> kind
                == IndexKind::Exact
            &&& (forall|i: int|
                0 <= i < args.flags.len() ==> (#[trigger] args.flags[i]).0 != "encoding"@)
                ==> encoding == Encoding::Float32
        }),
{
    if let Ok(args) = parsed(tokens, seq!["upsert"@]) {
        lemma_flag_values(args.flags, "text"@, ""@);
        lemma_flag_values(args.flags, "upsert"@, ""@);
        lemma_flag_values(args.flags, "index"@, ""@);
        lemma_flag_values(args.flags, "encoding"@, ""@);
        reveal_strlit("");
    }
}

/// What one more argument does to an accepted creation or deletion: each replaces
/// what it names, and nothing else.
pub proof fn lemma_create_one_more(tokens: Seq<Seq<char>>, dim: usize, id: u64)
    ensures
        create_args(tokens) matches Ok((file, n, kind, encoding)) ==> {
            &&& create_args(tokens + seq!["--dim"@, decimal(dim as nat)]) == Ok::<
                (Seq<char>, nat, IndexKind, Encoding),
                Seq<char>,
            >((file, dim as nat, kind, encoding))
            &&& create_args(tokens + seq!["--index"@, "exact"@]) == Ok::<
                (Seq<char>, nat, IndexKind, Encoding),
                Seq<char>,
            >((file, n, IndexKind::Exact, encoding))
            &&& create_args(tokens + seq!["--index"@, "hnsw"@]) matches Ok((f, d, k, e)) && {
                &&& f == file
                &&& d == n
                &&& k matches IndexKind::Hnsw(params) && params.max_neighbors == 16
                    && params.ef_construction == 64 && params.ef_search == 64
                &&& e == encoding
            }
            &&& create_args(tokens + seq!["--encoding"@, "float32"@]) == Ok::<
                (Seq<char>, nat, IndexKind, Encoding),
                Seq<char>,
            >((file, n, kind, Encoding::Float32))
            &&& create_args(tokens + seq!["--encoding"@, "int8"@]) == Ok::<
                (Seq<char>, nat, IndexKind, Encoding),
                Seq<char>,
            >((file, n, kind, Encoding::ScalarU8))
        },
        delete_args(tokens) matches Ok((file, _)) ==> delete_args(
            tokens + seq!["--id"@, decimal(id as nat)],
        ) == Ok::<(Seq<char>, nat), Seq<char>>((file, id as nat)),
{
    lemma_words_apart();
    lemma_flag_names();
    lemma_dashes();
    if create_args(tokens) is Ok {
        let booleans = seq!["upsert"@];
        let args = parsed(tokens, booleans)->Ok_0;
        lemma_one_more_flag(tokens, booleans, "dim"@, decimal(dim as nat));
        lemma_one_more_flag(tokens, booleans, "index"@, "exact"@);
        lemma_one_more_flag(tokens, booleans, "index"@, "hnsw"@);
        lemma_one_more_flag(tokens, booleans, "encoding"@, "float32"@);
        lemma_one_more_flag(tokens, booleans, "encoding"@, "int8"@);
        lemma_pushed(args.flags, ("dim"@, decimal(dim as nat)));
        lemma_pushed(args.flags, ("index"@, "exact"@));
        lemma_pushed(args.flags, ("index"@, "hnsw"@));
        lemma_pushed(args.flags, ("encoding"@, "float32"@));
        lemma_pushed(args.flags, ("encoding"@, "int8"@));
        lemma_number_read_back(dim as nat, usize::MAX as nat);
    }
    if delete_args(tokens) is Ok {
        let args = parsed(tokens, Seq::empty())->Ok_0;
        lemma_one_more_flag(tokens, Seq::empty(), "id"@, decimal(id as nat));
        lemma_pushed(args.flags, ("id"@, decimal(id as nat)));
        lemma_number_read_back(id as nat, u64::MAX as nat);
    }
}

proof fn lemma_words_apart()
    ensures
        "--dim"@ == "--"@ + "dim"@,
        "--index"@ == "--"@ + "index"@,
        "--encoding"@ == "--"@ + "encoding"@,
        !"dim"@.contains('='),
        !"index"@.contains('='),
        !"encoding"@.contains('='),
        "dim"@.len() == 3,
        "index"@.len() == 5,
        "encoding"@.len() == 8,
        "exact"@ != "hnsw"@,
        "float32"@ != "int8"@,
{
    reveal_strlit("--");
    reveal_strlit("dim");
    reveal_strlit("--dim");
    reveal_strlit("index");
    reveal_strlit("--index");
    reveal_strlit("encoding");
    reveal_strlit("--encoding");
    reveal_strlit("exact");
    reveal_strlit("hnsw");
    reveal_strlit("float32");
    reveal_strlit("int8");
    assert("--dim"@ =~= "--"@ + "dim"@);
    assert("--index"@ =~= "--"@ + "index"@);
    assert("--encoding"@ =~= "--"@ + "encoding"@);
    assert("exact"@.len() == 5 && "hnsw"@.len() == 4);
    assert("float32"@.len() == 7 && "int8"@.len() == 4);
}

/// The words of a vector are all numbers, or the first that is none stands behind
/// numbers only.
pub proof fn lemma_first_missing(values: Seq<Option<F32>>)
    ensures
        ({
            let k = first_missing(values);
            &&& k <= values.len()
            &&& k < values.len() ==> values[k as int] is None
            &&& forall|i: int| 0 <= i < k ==> (#[trigger] values[i]) is Some
        }),
    decreases values.len(),
{
    if values.len() > 0 && values[0] is Some {
        let rest = values.skip(1);
        lemma_first_missing(rest);
        assert forall|i: int| 0 <= i < first_missing(values) implies (
        #[trigger] values[i]) is Some by {
            if i > 0 {
                assert(values[i] == rest[i - 1]);
            }
        }
    }
}

/// A value that begins with an at sign names the file of the rest of it; any other
/// stands for itself.
pub proof fn lemma_source(value: Seq<char>)
    ensures
        source_of("@"@ + value) == (true, value),
        (value.len() == 0 || value[0] != '@') ==> source_of(value) == (false, value),
{
    reveal_strlit("@");
    lemma_without_prefix("@"@ + value, "@"@, value);
    if let Some(rest) = without_prefix(value, "@"@) {
        assert(value.take(1)[0] == value[0]);
    }
}

/// A value names one source, whatever stands beside it.
pub proof fn lemma_sources(values: Seq<Seq<char>>, i: int)
    requires
        0 <= i < values.len(),
    ensures
        sources_of(values).len() == values.len(),
        sources_of(values)[i] == source_of(values[i]),
{
}

/// What every accepted command was given: the id of what it inserts or deletes, the
/// vector that it inserts or searches for, the dimension of what it creates.
pub proof fn lemma_required(tokens: Seq<Seq<char>>, vector: Seq<F32>)
    ensures
        insert_args(tokens, vector) is Ok ==> (parsed(tokens, seq!["upsert"@]) matches Ok(args) && {
            &&& exists|i: int| 0 <= i < args.flags.len() && (#[trigger] args.flags[i]).0 == "id"@
            &&& exists|i: int|
                0 <= i < args.flags.len() && (#[trigger] args.flags[i]).0 == "vector"@
        }),
        search_args(tokens) is Ok ==> (parsed(tokens, seq!["mmap"@]) matches Ok(args) && exists|
            i: int,
        |
            0 <= i < args.flags.len() && (#[trigger] args.flags[i]).0 == "vector"@),
        create_args(tokens) is Ok ==> (parsed(tokens, seq!["upsert"@]) matches Ok(args) && exists|
            i: int,
        |
            0 <= i < args.flags.len() && (#[trigger] args.flags[i]).0 == "dim"@),
        delete_args(tokens) is Ok ==> (parsed(tokens, Seq::empty()) matches Ok(args) && exists|
            i: int,
        |
            0 <= i < args.flags.len() && (#[trigger] args.flags[i]).0 == "id"@),
{
    if let Ok(args) = parsed(tokens, seq!["upsert"@]) {
        lemma_flag_values(args.flags, "id"@, ""@);
        lemma_flag_values(args.flags, "vector"@, ""@);
        lemma_flag_values(args.flags, "dim"@, ""@);
    }
    if let Ok(args) = parsed(tokens, seq!["mmap"@]) {
        lemma_flag_values(args.flags, "vector"@, ""@);
    }
    if let Ok(args) = parsed(tokens, Seq::empty()) {
        lemma_flag_values(args.flags, "id"@, ""@);
    }
}

/// One more `--vector` says where the vector of an insertion or the query of a search
/// is, and changes nothing else.
pub proof fn lemma_vector_one_more(tokens: Seq<Seq<char>>, value: Seq<char>)
    ensures
        insert_vector_args(tokens) matches Ok((_, file, id, _)) ==> (insert_vector_args(
            tokens + seq!["--vector"@, value],
        ) matches Ok((_, f, i, source)) && f == file && i == id && source == source_of(value)),
        search_vector_args(tokens) matches Ok((_, file, _)) ==> (search_vector_args(
            tokens + seq!["--vector"@, value],
        ) matches Ok((_, f, source)) && f == file && source == source_of(value)),
{
    lemma_flag_names();
    reveal_strlit("--");
    reveal_strlit("vector");
    reveal_strlit("--vector");
    assert("--vector"@ =~= "--"@ + "vector"@);
    assert(!"vector"@.contains('='));
    let upsert = seq!["upsert"@];
    let mmap = seq!["mmap"@];
    assert(!upsert.contains("vector"@)) by {
        if upsert.contains("vector"@) {
            assert(upsert[0] == "vector"@);
            assert("vector"@[0] == "upsert"@[0]);
        }
    }
    assert(!mmap.contains("vector"@)) by {
        if mmap.contains("vector"@) {
            assert(mmap[0] == "vector"@);
        }
    }
    if let Ok(args) = parsed(tokens, upsert) {
        lemma_one_more_flag(tokens, upsert, "vector"@, value);
        lemma_pushed(args.flags, ("vector"@, value));
    }
    if let Ok(args) = parsed(tokens, mmap) {
        lemma_one_more_flag(tokens, mmap, "vector"@, value);
        lemma_pushed(args.flags, ("vector"@, value));
    }
}

} // verus!
