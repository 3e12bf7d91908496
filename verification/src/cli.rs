//! The arguments of the `lvdb` command-line tool.
//!
//! Arguments are parsed by hand to keep the crate dependency-free.
//!
//! ```text
//! lvdb create  <file> --dim N [--index exact|hnsw] [--encoding float32|int8]
//! lvdb insert  <file> --id N --vector 0.1,0.2,... [--text "..."] [--meta k=v]... [--upsert]
//! lvdb search  <file> --vector 0.1,0.2,... [-k N] [--filter k=v]... [--mmap]
//! lvdb delete  <file> --id N
//! lvdb compact <file>
//! lvdb stats   <file>
//! lvdb export  <file> <out.json>
//! lvdb import  <in.json> <file>
//! ```

use crate::db::{Encoding, IndexKind};
use crate::float::F32;
use crate::index::hnsw::AnnParams;
use crate::record::{pairs_insert, Metadata, Record, RecordView};
use crate::text::{
    decimal, number_value, parse_number, push_decimal, same, split_at_first, split_once,
    strip_prefix, view_texts, without_prefix,
};
use vstd::prelude::*;
use vstd::string::StringExecFns;

verus! {

/// Arguments told apart: positionals, and flags with their values, in order.
pub struct ArgsView {
    pub positionals: Seq<Seq<char>>,
    pub flags: Seq<(Seq<char>, Seq<char>)>,
}

impl ArgsView {
    pub open spec fn with_flag(self, name: Seq<char>, value: Seq<char>) -> ArgsView {
        ArgsView { flags: self.flags.push((name, value)), ..self }
    }

    pub open spec fn with_positional(self, value: Seq<char>) -> ArgsView {
        ArgsView { positionals: self.positionals.push(value), ..self }
    }
}

/// The tokens from the `i`-th on, added to what was found before them:
/// `--flag=value`, boolean flags, `--flag value`, the `-k` alias and
/// positionals.
pub open spec fn scan(
    tokens: Seq<Seq<char>>,
    booleans: Seq<Seq<char>>,
    i: int,
    found: ArgsView,
) -> Result<ArgsView, Seq<char>>
    decreases tokens.len() - i,
{
    if i >= tokens.len() {
        Ok(found)
    } else {
        match without_prefix(tokens[i], "--"@) {
            Some(name) => match split_at_first(name, '=') {
                Some((name, value)) => scan(tokens, booleans, i + 1, found.with_flag(name, value)),
                None => if booleans.contains(name) {
                    scan(tokens, booleans, i + 1, found.with_flag(name, "true"@))
                } else if i + 1 < tokens.len() {
                    scan(tokens, booleans, i + 2, found.with_flag(name, tokens[i + 1]))
                } else {
                    Err("flag --"@ + name + " needs a value"@)
                },
            },
            None => if tokens[i] == "-k"@ {
                if i + 1 < tokens.len() {
                    scan(tokens, booleans, i + 2, found.with_flag("limit"@, tokens[i + 1]))
                } else {
                    Err("flag -k needs a value"@)
                }
            } else {
                scan(tokens, booleans, i + 1, found.with_positional(tokens[i]))
            },
        }
    }
}

/// The arguments told apart, or what is wrong with them.
pub open spec fn parsed(tokens: Seq<Seq<char>>, booleans: Seq<Seq<char>>) -> Result<
    ArgsView,
    Seq<char>,
> {
    scan(tokens, booleans, 0, ArgsView { positionals: Seq::empty(), flags: Seq::empty() })
}

/// The last value given for `name`, if any.
pub open spec fn last_value(flags: Seq<(Seq<char>, Seq<char>)>, name: Seq<char>) -> Option<
    Seq<char>,
>
    decreases flags.len(),
{
    if flags.len() == 0 {
        None
    } else if flags.last().0 == name {
        Some(flags.last().1)
    } else {
        last_value(flags.drop_last(), name)
    }
}

/// All values given for `name`, in order.
pub open spec fn all_values(flags: Seq<(Seq<char>, Seq<char>)>, name: Seq<char>) -> Seq<Seq<char>>
    decreases flags.len(),
{
    if flags.len() == 0 {
        Seq::empty()
    } else if flags.last().0 == name {
        all_values(flags.drop_last(), name).push(flags.last().1)
    } else {
        all_values(flags.drop_last(), name)
    }
}

pub open spec fn positional_arg(args: ArgsView, index: int, name: Seq<char>) -> Result<
    Seq<char>,
    Seq<char>,
> {
    if index < args.positionals.len() {
        Ok(args.positionals[index])
    } else {
        Err("missing required argument <"@ + name + ">"@)
    }
}

pub open spec fn required_arg(args: ArgsView, name: Seq<char>) -> Result<Seq<char>, Seq<char>> {
    match last_value(args.flags, name) {
        Some(value) => Ok(value),
        None => Err("missing required flag --"@ + name),
    }
}

/// Minimal hand-rolled argument parser: positionals, `--flag value`,
/// `--flag=value`, repeatable flags, boolean flags, and the `-k` alias.
#[derive(Debug)]
pub struct Parsed {
    positionals: Vec<String>,
    flags: Vec<(String, String)>,
}

impl View for Parsed {
    type V = ArgsView;

    closed spec fn view(&self) -> ArgsView {
        ArgsView {
            positionals: view_texts(self.positionals@),
            flags: self.flags@.map_values(|f: (String, String)| (f.0@, f.1@)),
        }
    }
}

/// Three pieces of text in a row.
fn joined(a: &str, b: &str, c: &str) -> (r: String)
    ensures
        r@ == a@ + b@ + c@,
{
    let mut text = String::from_str(a);
    text.append(b);
    text.append(c);
    text
}

/// The views of names.
pub open spec fn view_names(names: Seq<&str>) -> Seq<Seq<char>> {
    names.map_values(|n: &str| n@)
}

fn contains_name(names: &[&str], name: &String) -> (r: bool)
    ensures
        r == view_names(names@).contains(name@),
{
    let mut i: usize = 0;
    while i < names.len()
        invariant
            i <= names@.len(),
            forall|k: int| 0 <= k < i ==> (#[trigger] names@[k])@ != name@,
        decreases names@.len() - i,
    {
        if same(names[i], name.as_str()) {
            assert(view_names(names@)[i as int] == name@);
            return true;
        }
        i = i + 1;
    }
    proof {
        if view_names(names@).contains(name@) {
            let k = choose|k: int|
                0 <= k < view_names(names@).len() && view_names(names@)[k] == name@;
            assert(names@[k]@ == name@);
        }
    }
    false
}

impl Parsed {
    fn add_flag(&mut self, name: String, value: String)
        ensures
            final(self)@ == old(self)@.with_flag(name@, value@),
    {
        self.flags.push((name, value));
        assert(self@.flags =~= old(self)@.flags.push((name@, value@)));
    }

    fn add_positional(&mut self, value: String)
        ensures
            final(self)@ == old(self)@.with_positional(value@),
    {
        self.positionals.push(value);
        assert(self@.positionals =~= old(self)@.positionals.push(value@));
    }

    /// Tell the arguments apart. The flags in `booleans` take no value.
    pub fn parse(tokens: &[String], booleans: &[&str]) -> (r: Result<Self, String>)
        ensures
            match parsed(view_texts(tokens@), view_names(booleans@)) {
                Err(message) => r matches Err(e) && e@ == message,
                Ok(args) => r matches Ok(p) && p@ == args,
            },
    {
        let mut found = Parsed { positionals: Vec::new(), flags: Vec::new() };
        let ghost all = view_texts(tokens@);
        let ghost names = view_names(booleans@);
        proof {
            assert(found@.positionals =~= Seq::empty());
            assert(found@.flags =~= Seq::empty());
        }
        let mut i: usize = 0;
        let count: usize = tokens.len();
        while i < count
            invariant
                count == tokens@.len(),
                i <= count,
                all == view_texts(tokens@),
                names == view_names(booleans@),
                scan(all, names, i as int, found@) == parsed(all, names),
            decreases count - i,
        {
            let token: &str = tokens[i].as_str();
            assert(token@ == all[i as int]);
            match strip_prefix(token, "--") {
                Some(name) => match split_once(name.as_str(), '=') {
                    Some((name, value)) => {
                        found.add_flag(name, value);
                    },
                    None => {
                        if contains_name(booleans, &name) {
                            found.add_flag(name, String::from_str("true"));
                        } else if count - i > 1 {
                            found.add_flag(name, tokens[i + 1].clone());
                            i = i + 1;
                        } else {
                            return Err(joined("flag --", name.as_str(), " needs a value"));
                        }
                    },
                },
                None => {
                    if same(token, "-k") {
                        if count - i > 1 {
                            found.add_flag(String::from_str("limit"), tokens[i + 1].clone());
                            i = i + 1;
                        } else {
                            return Err(String::from_str("flag -k needs a value"));
                        }
                    } else {
                        found.add_positional(tokens[i].clone());
                    }
                },
            }
            i = i + 1;
        }
        Ok(found)
    }

    /// The positional at `index`.
    pub fn positional(&self, index: usize, name: &str) -> (r: Result<&str, String>)
        ensures
            match positional_arg(self@, index as int, name@) {
                Err(message) => r matches Err(e) && e@ == message,
                Ok(value) => r matches Ok(v) && v@ == value,
            },
    {
        if index < self.positionals.len() {
            Ok(self.positionals[index].as_str())
        } else {
            Err(joined("missing required argument <", name, ">"))
        }
    }

    /// The last value given for `name`, if any.
    pub fn get(&self, name: &str) -> (r: Option<&str>)
        ensures
            match last_value(self@.flags, name@) {
                None => r is None,
                Some(value) => r matches Some(v) && v@ == value,
            },
    {
        let ghost flags = self@.flags;
        let mut i: usize = self.flags.len();
        assert(flags.take(i as int) =~= flags);
        while i > 0
            invariant
                i <= self.flags@.len(),
                flags == self@.flags,
                last_value(flags, name@) == last_value(flags.take(i as int), name@),
            decreases i,
        {
            assert(flags.take(i as int).drop_last() =~= flags.take(i - 1));
            assert(flags.take(i as int).last() == flags[i - 1]);
            if same(self.flags[i - 1].0.as_str(), name) {
                return Some(self.flags[i - 1].1.as_str());
            }
            i = i - 1;
        }
        None
    }

    /// The last value given for `name`.
    pub fn required(&self, name: &str) -> (r: Result<&str, String>)
        ensures
            match required_arg(self@, name@) {
                Err(message) => r matches Err(e) && e@ == message,
                Ok(value) => r matches Ok(v) && v@ == value,
            },
    {
        match self.get(name) {
            Some(value) => Ok(value),
            None => {
                let mut text = String::from_str("missing required flag --");
                text.append(name);
                Err(text)
            },
        }
    }

    /// All values given for a repeatable flag.
    pub fn get_all(&self, name: &str) -> (r: Vec<String>)
        ensures
            view_texts(r@) == all_values(self@.flags, name@),
    {
        let ghost flags = self@.flags;
        let mut out: Vec<String> = Vec::new();
        let mut i: usize = 0;
        assert(flags.take(0) =~= Seq::empty());
        assert(view_texts(out@) =~= Seq::empty());
        while i < self.flags.len()
            invariant
                i <= self.flags@.len(),
                flags == self@.flags,
                view_texts(out@) == all_values(flags.take(i as int), name@),
            decreases self.flags@.len() - i,
        {
            let ghost before = view_texts(out@);
            assert(flags.take(i + 1).drop_last() =~= flags.take(i as int));
            assert(flags.take(i + 1).last() == flags[i as int]);
            if same(self.flags[i].0.as_str(), name) {
                out.push(self.flags[i].1.clone());
                assert(view_texts(out@) =~= before.push(flags[i as int].1));
            }
            i = i + 1;
        }
        assert(flags.take(i as int) =~= flags);
        out
    }

    /// Whether the flag was given.
    pub fn flag(&self, name: &str) -> (r: bool)
        ensures
            r == (last_value(self@.flags, name@) is Some),
    {
        self.get(name).is_some()
    }
}

/// The kind of index that a word names.
pub open spec fn kind_named(value: Seq<char>) -> Result<IndexKind, Seq<char>> {
    if value == "exact"@ {
        Ok(IndexKind::Exact)
    } else if value == "hnsw"@ {
        Ok(
            IndexKind::Hnsw(
                AnnParams { max_neighbors: 16, ef_construction: 64, ef_search: 64 },
            ),
        )
    } else {
        Err("unknown index kind '"@ + value + "' (expected exact or hnsw)"@)
    }
}

pub fn parse_index_kind(value: &str) -> (r: Result<IndexKind, String>)
    ensures
        match kind_named(value@) {
            Err(message) => r matches Err(e) && e@ == message,
            Ok(kind) => r matches Ok(k) && k == kind,
        },
{
    if same(value, "exact") {
        Ok(IndexKind::Exact)
    } else if same(value, "hnsw") {
        Ok(IndexKind::Hnsw(AnnParams::default()))
    } else {
        Err(joined("unknown index kind '", value, "' (expected exact or hnsw)"))
    }
}

/// A kind of index in words.
pub open spec fn kind_label(kind: IndexKind) -> Seq<char> {
    match kind {
        IndexKind::Exact => "exact"@,
        IndexKind::Hnsw(p) => "hnsw(M="@ + decimal(p.max_neighbors as nat) + ", ef_construction="@
            + decimal(p.ef_construction as nat) + ", ef_search="@ + decimal(p.ef_search as nat)
            + ")"@,
    }
}

pub fn index_kind_label(kind: IndexKind) -> (r: String)
    ensures
        r@ == kind_label(kind),
{
    match kind {
        IndexKind::Exact => String::from_str("exact"),
        IndexKind::Hnsw(p) => {
            let mut text = String::from_str("hnsw(M=");
            push_decimal(&mut text, p.max_neighbors as u64);
            text.append(", ef_construction=");
            push_decimal(&mut text, p.ef_construction as u64);
            text.append(", ef_search=");
            push_decimal(&mut text, p.ef_search as u64);
            text.append(")");
            text
        },
    }
}

/// The encoding that a word names.
pub open spec fn encoding_named(value: Seq<char>) -> Result<Encoding, Seq<char>> {
    if value == "float32"@ {
        Ok(Encoding::Float32)
    } else if value == "int8"@ {
        Ok(Encoding::ScalarU8)
    } else {
        Err("unknown encoding '"@ + value + "' (expected float32 or int8)"@)
    }
}

pub fn parse_encoding(value: &str) -> (r: Result<Encoding, String>)
    ensures
        match encoding_named(value@) {
            Err(message) => r matches Err(e) && e@ == message,
            Ok(encoding) => r matches Ok(x) && x == encoding,
        },
{
    if same(value, "float32") {
        Ok(Encoding::Float32)
    } else if same(value, "int8") {
        Ok(Encoding::ScalarU8)
    } else {
        Err(joined("unknown encoding '", value, "' (expected float32 or int8)"))
    }
}

/// The pairs of repeated `key=value` arguments, a later value of a key
/// replacing an earlier one, or what is wrong with the first that is none.
pub open spec fn pairs_given(flag: Seq<char>, values: Seq<Seq<char>>) -> Result<
    Seq<(Seq<char>, Seq<char>)>,
    Seq<char>,
>
    decreases values.len(),
{
    if values.len() == 0 {
        Ok(Seq::empty())
    } else {
        match pairs_given(flag, values.drop_last()) {
            Err(message) => Err(message),
            Ok(pairs) => match split_at_first(values.last(), '=') {
                Some((key, value)) => Ok(pairs_insert(pairs, key, value)),
                None => Err(flag + " expects key=value, got '"@ + values.last() + "'"@),
            },
        }
    }
}

proof fn lemma_pairs_fail(flag: Seq<char>, values: Seq<Seq<char>>, n: int)
    requires
        0 <= n <= values.len(),
        pairs_given(flag, values.take(n)) is Err,
    ensures
        pairs_given(flag, values) == pairs_given(flag, values.take(n)),
    decreases values.len() - n,
{
    if n == values.len() {
        assert(values.take(n) =~= values);
    } else {
        assert(values.take(n + 1).drop_last() =~= values.take(n));
        lemma_pairs_fail(flag, values, n + 1);
    }
}

/// Metadata from repeated `key=value` arguments.
pub fn parse_pairs(flag: &str, values: &Vec<String>) -> (r: Result<Metadata, String>)
    ensures
        match pairs_given(flag@, view_texts(values@)) {
            Err(message) => r matches Err(e) && e@ == message,
            Ok(pairs) => r matches Ok(m) && m@ == pairs,
        },
{
    let ghost all = view_texts(values@);
    let mut pairs = Metadata::new();
    let mut i: usize = 0;
    assert(all.take(0) =~= Seq::empty());
    while i < values.len()
        invariant
            i <= values@.len(),
            all == view_texts(values@),
            pairs_given(flag@, all.take(i as int)) == Ok::<
                Seq<(Seq<char>, Seq<char>)>,
                Seq<char>,
            >(pairs@),
        decreases values@.len() - i,
    {
        proof {
            assert(all.take(i + 1).drop_last() =~= all.take(i as int));
            assert(all.take(i + 1).last() == values@[i as int]@);
        }
        match split_once(values[i].as_str(), '=') {
            Some((key, value)) => {
                let _ = pairs.insert(key, value);
            },
            None => {
                proof {
                    lemma_pairs_fail(flag@, all, i + 1);
                }
                let mut text = String::from_str(flag);
                text.append(" expects key=value, got '");
                text.append(values[i].as_str());
                text.append("'");
                return Err(text);
            },
        }
        i = i + 1;
    }
    assert(all.take(i as int) =~= all);
    Ok(pairs)
}

/// A number in an argument, or what is wrong with it.
pub open spec fn number_arg(value: Seq<char>, max: nat) -> Result<nat, Seq<char>> {
    match number_value(value, max) {
        Ok(n) => Ok(n),
        Err(e) => Err(e.text()),
    }
}

fn parse_u64(value: &str) -> (r: Result<u64, String>)
    ensures
        match number_arg(value@, u64::MAX as nat) {
            Err(message) => r matches Err(e) && e@ == message,
            Ok(n) => r matches Ok(x) && x == n,
        },
{
    match parse_number(value, u64::MAX) {
        Ok(n) => Ok(n),
        Err(e) => Err(e.message()),
    }
}

fn parse_usize(value: &str) -> (r: Result<usize, String>)
    ensures
        match number_arg(value@, usize::MAX as nat) {
            Err(message) => r matches Err(e) && e@ == message,
            Ok(n) => r matches Ok(x) && x == n,
        },
{
    match parse_number(value, usize::MAX as u64) {
        Ok(n) => Ok(n as usize),
        Err(e) => Err(e.message()),
    }
}

/// The value of a flag, or what stands for it where it is not given.
pub open spec fn value_or(args: ArgsView, name: Seq<char>, otherwise: Seq<char>) -> Seq<char> {
    match last_value(args.flags, name) {
        Some(value) => value,
        None => otherwise,
    }
}

fn get_or<'a>(args: &'a Parsed, name: &str, otherwise: &'a str) -> (r: &'a str)
    ensures
        r@ == value_or(args@, name@, otherwise@),
{
    match args.get(name) {
        Some(value) => value,
        None => otherwise,
    }
}

/// What to do.
#[derive(Debug, Clone, Copy, PartialEq, Eq, Structural)]
pub enum Command {
    Help,
    Create,
    Insert,
    Search,
    Delete,
    Compact,
    Stats,
    Export,
    Import,
    Unknown,
}

/// The command that the first argument names; help where there is none.
pub open spec fn command_named(args: Seq<Seq<char>>) -> Command {
    if args.len() == 0 {
        Command::Help
    } else if args[0] == "create"@ {
        Command::Create
    } else if args[0] == "insert"@ {
        Command::Insert
    } else if args[0] == "search"@ {
        Command::Search
    } else if args[0] == "delete"@ {
        Command::Delete
    } else if args[0] == "compact"@ {
        Command::Compact
    } else if args[0] == "stats"@ {
        Command::Stats
    } else if args[0] == "export"@ {
        Command::Export
    } else if args[0] == "import"@ {
        Command::Import
    } else if args[0] == "help"@ || args[0] == "--help"@ || args[0] == "-h"@ {
        Command::Help
    } else {
        Command::Unknown
    }
}

/// The command that the first argument names.
pub fn command(args: &[String]) -> (r: Command)
    ensures
        r == command_named(view_texts(args@)),
{
    if args.len() == 0 {
        return Command::Help;
    }
    let name: &str = args[0].as_str();
    assert(name@ == view_texts(args@)[0]);
    if same(name, "create") {
        Command::Create
    } else if same(name, "insert") {
        Command::Insert
    } else if same(name, "search") {
        Command::Search
    } else if same(name, "delete") {
        Command::Delete
    } else if same(name, "compact") {
        Command::Compact
    } else if same(name, "stats") {
        Command::Stats
    } else if same(name, "export") {
        Command::Export
    } else if same(name, "import") {
        Command::Import
    } else if same(name, "help") || same(name, "--help") || same(name, "-h") {
        Command::Help
    } else {
        Command::Unknown
    }
}

/// What to say of a command that there is not.
pub fn unknown_command(name: &str, usage: &str) -> (r: String)
    ensures
        r@ == "unknown command '"@ + name@ + "'\n\n"@ + usage@,
{
    let mut text = String::from_str("unknown command '");
    text.append(name);
    text.append("'\n\n");
    text.append(usage);
    text
}

/// Create a new empty database file.
#[derive(Debug)]
pub struct CreateRequest {
    pub file: String,
    pub dim: usize,
    pub index_kind: IndexKind,
    pub encoding: Encoding,
}

pub open spec fn create_args(tokens: Seq<Seq<char>>) -> Result<
    (Seq<char>, nat, IndexKind, Encoding),
    Seq<char>,
> {
    match parsed(tokens, seq!["upsert"@]) {
        Err(e) => Err(e),
        Ok(args) => match positional_arg(args, 0, "file"@) {
            Err(e) => Err(e),
            Ok(file) => match required_arg(args, "dim"@) {
                Err(e) => Err(e),
                Ok(dim) => match number_arg(dim, usize::MAX as nat) {
                    Err(e) => Err(e),
                    Ok(n) => match kind_named(value_or(args, "index"@, "exact"@)) {
                        Err(e) => Err(e),
                        Ok(kind) => match encoding_named(
                            value_or(args, "encoding"@, "float32"@),
                        ) {
                            Err(e) => Err(e),
                            Ok(encoding) => Ok((file, n, kind, encoding)),
                        },
                    },
                },
            },
        },
    }
}

pub fn create(rest: &[String]) -> (r: Result<CreateRequest, String>)
    ensures
        match create_args(view_texts(rest@)) {
            Err(message) => r matches Err(e) && e@ == message,
            Ok((file, dim, kind, encoding)) => r matches Ok(q) && {
                &&& q.file@ == file
                &&& q.dim == dim
                &&& q.index_kind == kind
                &&& q.encoding == encoding
            },
        },
{
    let booleans: [&str; 1] = ["upsert"];
    assert(view_names(booleans@) =~= seq!["upsert"@]);
    let args = Parsed::parse(rest, &booleans)?;
    let file = args.positional(0, "file")?;
    let dim: usize = parse_usize(args.required("dim")?)?;
    let index_kind = parse_index_kind(get_or(&args, "index", "exact"))?;
    let encoding = parse_encoding(get_or(&args, "encoding", "float32"))?;
    Ok(CreateRequest { file: String::from_str(file), dim, index_kind, encoding })
}

/// Where the value of a flag is: in the argument, or in a file.
#[derive(Debug)]
pub enum ValueSource {
    Inline(String),
    File(String),
}

/// What a source holds: whether it names a file, and the rest.
pub open spec fn view_source(source: ValueSource) -> (bool, Seq<char>) {
    match source {
        ValueSource::Inline(text) => (false, text@),
        ValueSource::File(path) => (true, path@),
    }
}

/// A value of the form `@path` names a file.
pub open spec fn source_of(value: Seq<char>) -> (bool, Seq<char>) {
    match without_prefix(value, "@"@) {
        Some(path) => (true, path),
        None => (false, value),
    }
}

fn value_source(value: &str) -> (r: ValueSource)
    ensures
        view_source(r) == source_of(value@),
{
    match strip_prefix(value, "@") {
        Some(path) => ValueSource::File(path),
        None => ValueSource::Inline(String::from_str(value)),
    }
}

/// The index of the first word that is no number.
pub open spec fn first_missing(values: Seq<Option<F32>>) -> nat
    decreases values.len(),
{
    if values.len() == 0 || values[0] is None {
        0
    } else {
        1 + first_missing(values.skip(1))
    }
}

/// The vector that the words of a source make up, each with the number it was
/// read as, or the complaint about the first that is no number.
pub fn parse_vector(words: &Vec<String>, values: &Vec<Option<F32>>) -> (r: Result<
    Vec<F32>,
    String,
>)
    requires
        words@.len() == values@.len(),
    ensures
        ({
            let k = first_missing(values@) as int;
            if k < values@.len() {
                r matches Err(e) && e@ == "invalid vector value '"@ + words@[k]@ + "'"@
            } else {
                r matches Ok(v) && v@ == values@.map_values(|x: Option<F32>| x->0)
            }
        }),
{
    let ghost all = values@;
    let mut vector: Vec<F32> = Vec::new();
    let mut i: usize = 0;
    assert(all.skip(0) =~= all);
    while i < values.len()
        invariant
            i <= values@.len(),
            all == values@,
            words@.len() == values@.len(),
            first_missing(all) == i + first_missing(all.skip(i as int)),
            vector@ == all.map_values(|x: Option<F32>| x->0).take(i as int),
        decreases values@.len() - i,
    {
        assert(all.skip(i as int)[0] == all[i as int]);
        assert(all.skip(i as int).skip(1) =~= all.skip(i + 1));
        match values[i] {
            Some(x) => vector.push(x),
            None => {
                return Err(joined("invalid vector value '", words[i].as_str(), "'"));
            },
        }
        i = i + 1;
        assert(vector@ =~= all.map_values(|x: Option<F32>| x->0).take(i as int));
    }
    assert(vector@ =~= all.map_values(|x: Option<F32>| x->0));
    Ok(vector)
}

/// Add (or, with `upsert`, replace) a record.
#[derive(Debug)]
pub struct InsertRequest {
    pub file: String,
    pub record: Record,
    pub upsert: bool,
}

/// The file, the id and the source of the vector of an insertion.
pub open spec fn insert_vector_args(tokens: Seq<Seq<char>>) -> Result<
    (ArgsView, Seq<char>, nat, (bool, Seq<char>)),
    Seq<char>,
> {
    match parsed(tokens, seq!["upsert"@]) {
        Err(e) => Err(e),
        Ok(args) => match positional_arg(args, 0, "file"@) {
            Err(e) => Err(e),
            Ok(file) => match required_arg(args, "id"@) {
                Err(e) => Err(e),
                Ok(id) => match number_arg(id, u64::MAX as nat) {
                    Err(e) => Err(e),
                    Ok(n) => match required_arg(args, "vector"@) {
                        Err(e) => Err(e),
                        Ok(vector) => Ok((args, file, n, source_of(vector))),
                    },
                },
            },
        },
    }
}

/// Where the vector of an insertion is, checked as far as that.
pub fn insert_vector(rest: &[String]) -> (r: Result<ValueSource, String>)
    ensures
        match insert_vector_args(view_texts(rest@)) {
            Err(message) => r matches Err(e) && e@ == message,
            Ok((_, _, _, source)) => r matches Ok(s) && view_source(s) == source,
        },
{
    let booleans: [&str; 1] = ["upsert"];
    assert(view_names(booleans@) =~= seq!["upsert"@]);
    let args = Parsed::parse(rest, &booleans)?;
    let _ = args.positional(0, "file")?;
    let _ = parse_u64(args.required("id")?)?;
    let value = args.required("vector")?;
    Ok(value_source(value))
}

/// An insertion of the given vector.
pub open spec fn insert_args(tokens: Seq<Seq<char>>, vector: Seq<F32>) -> Result<
    (Seq<char>, RecordView, bool),
    Seq<char>,
> {
    match insert_vector_args(tokens) {
        Err(e) => Err(e),
        Ok((args, file, id, _)) => match pairs_given(
            "--meta"@,
            all_values(args.flags, "meta"@),
        ) {
            Err(e) => Err(e),
            Ok(metadata) => Ok(
                (
                    file,
                    RecordView {
                        id: id as u64,
                        vector,
                        text: value_or(args, "text"@, ""@),
                        metadata,
                    },
                    last_value(args.flags, "upsert"@) is Some,
                ),
            ),
        },
    }
}

pub fn insert(rest: &[String], vector: Vec<F32>) -> (r: Result<InsertRequest, String>)
    ensures
        match insert_args(view_texts(rest@), vector@) {
            Err(message) => r matches Err(e) && e@ == message,
            Ok((file, record, upsert)) => r matches Ok(q) && {
                &&& q.file@ == file
                &&& q.record@ == record
                &&& q.upsert == upsert
            },
        },
{
    let booleans: [&str; 1] = ["upsert"];
    assert(view_names(booleans@) =~= seq!["upsert"@]);
    let args = Parsed::parse(rest, &booleans)?;
    let file = args.positional(0, "file")?;
    let id: u64 = parse_u64(args.required("id")?)?;
    let _ = args.required("vector")?;
    let text = String::from_str(get_or(&args, "text", ""));
    let metadata = parse_pairs("--meta", &args.get_all("meta"))?;
    let record = Record { id, vector, text, metadata };
    Ok(InsertRequest { file: String::from_str(file), record, upsert: args.flag("upsert") })
}

/// Search for the nearest records.
#[derive(Debug)]
pub struct SearchRequest {
    pub file: String,
    pub query: Vec<F32>,
    pub limit: usize,
    pub filter: Metadata,
    pub mmap: bool,
}

/// The file and the source of the query of a search.
pub open spec fn search_vector_args(tokens: Seq<Seq<char>>) -> Result<
    (ArgsView, Seq<char>, (bool, Seq<char>)),
    Seq<char>,
> {
    match parsed(tokens, seq!["mmap"@]) {
        Err(e) => Err(e),
        Ok(args) => match positional_arg(args, 0, "file"@) {
            Err(e) => Err(e),
            Ok(file) => match required_arg(args, "vector"@) {
                Err(e) => Err(e),
                Ok(vector) => Ok((args, file, source_of(vector))),
            },
        },
    }
}

/// Where the query of a search is, checked as far as that.
pub fn search_vector(rest: &[String]) -> (r: Result<ValueSource, String>)
    ensures
        match search_vector_args(view_texts(rest@)) {
            Err(message) => r matches Err(e) && e@ == message,
            Ok((_, _, source)) => r matches Ok(s) && view_source(s) == source,
        },
{
    let booleans: [&str; 1] = ["mmap"];
    assert(view_names(booleans@) =~= seq!["mmap"@]);
    let args = Parsed::parse(rest, &booleans)?;
    let _ = args.positional(0, "file")?;
    let value = args.required("vector")?;
    Ok(value_source(value))
}

/// A search: the file, the limit, the values of the filters, and whether to
/// search in place.
pub open spec fn search_args(tokens: Seq<Seq<char>>) -> Result<
    (Seq<char>, nat, Seq<Seq<char>>, bool),
    Seq<char>,
> {
    match search_vector_args(tokens) {
        Err(e) => Err(e),
        Ok((args, file, _)) => match number_arg(
            value_or(args, "limit"@, "10"@),
            usize::MAX as nat,
        ) {
            Err(e) => Err(e),
            Ok(limit) => Ok(
                (
                    file,
                    limit,
                    all_values(args.flags, "filter"@),
                    last_value(args.flags, "mmap"@) is Some,
                ),
            ),
        },
    }
}

/// What sources hold.
pub open spec fn view_sources(sources: Seq<ValueSource>) -> Seq<(bool, Seq<char>)> {
    sources.map_values(|s: ValueSource| view_source(s))
}

/// The sources that values name.
pub open spec fn sources_of(values: Seq<Seq<char>>) -> Seq<(bool, Seq<char>)> {
    Seq::new(values.len(), |i: int| source_of(values[i]))
}

/// Where the filters of a search are, checked as far as that.
pub fn search_filters(rest: &[String]) -> (r: Result<Vec<ValueSource>, String>)
    ensures
        match search_args(view_texts(rest@)) {
            Err(message) => r matches Err(e) && e@ == message,
            Ok((_, _, filters, _)) => r matches Ok(s) && view_sources(s@) == sources_of(filters),
        },
{
    let booleans: [&str; 1] = ["mmap"];
    assert(view_names(booleans@) =~= seq!["mmap"@]);
    let args = Parsed::parse(rest, &booleans)?;
    let _ = args.positional(0, "file")?;
    let _ = args.required("vector")?;
    let _ = parse_usize(get_or(&args, "limit", "10"))?;
    let values = args.get_all("filter");
    let ghost expected = sources_of(view_texts(values@));
    let mut sources: Vec<ValueSource> = Vec::new();
    let mut i: usize = 0;
    assert(view_sources(sources@) =~= expected.take(0));
    while i < values.len()
        invariant
            i <= values@.len(),
            expected == sources_of(view_texts(values@)),
            view_sources(sources@) == expected.take(i as int),
        decreases values@.len() - i,
    {
        let source = value_source(values[i].as_str());
        let ghost before = view_sources(sources@);
        assert(view_source(source) == expected[i as int]);
        sources.push(source);
        assert(view_sources(sources@) =~= before.push(expected[i as int]));
        assert(expected.take(i + 1) =~= before.push(expected[i as int]));
        i = i + 1;
    }
    assert(view_sources(sources@) =~= expected);
    Ok(sources)
}

/// A search for the given query with the given filters, each `key=value`.
pub fn search(rest: &[String], query: Vec<F32>, filters: &Vec<String>) -> (r: Result<
    SearchRequest,
    String,
>)
    ensures
        match search_args(view_texts(rest@)) {
            Err(message) => r matches Err(e) && e@ == message,
            Ok((file, limit, _, mmap)) => match pairs_given(
                "--filter"@,
                view_texts(filters@),
            ) {
                Err(message) => r matches Err(e) && e@ == message,
                Ok(filter) => r matches Ok(q) && {
                    &&& q.file@ == file
                    &&& q.query@ == query@
                    &&& q.limit == limit
                    &&& q.filter@ == filter
                    &&& q.mmap == mmap
                },
            },
        },
{
    let booleans: [&str; 1] = ["mmap"];
    assert(view_names(booleans@) =~= seq!["mmap"@]);
    let args = Parsed::parse(rest, &booleans)?;
    let file = args.positional(0, "file")?;
    let _ = args.required("vector")?;
    let limit: usize = parse_usize(get_or(&args, "limit", "10"))?;
    let filter = parse_pairs("--filter", filters)?;
    Ok(
        SearchRequest {
            file: String::from_str(file),
            query,
            limit,
            filter,
            mmap: args.flag("mmap"),
        },
    )
}

/// Remove a record.
#[derive(Debug)]
pub struct DeleteRequest {
    pub file: String,
    pub id: u64,
}

pub open spec fn delete_args(tokens: Seq<Seq<char>>) -> Result<(Seq<char>, nat), Seq<char>> {
    match parsed(tokens, Seq::empty()) {
        Err(e) => Err(e),
        Ok(args) => match positional_arg(args, 0, "file"@) {
            Err(e) => Err(e),
            Ok(file) => match required_arg(args, "id"@) {
                Err(e) => Err(e),
                Ok(id) => match number_arg(id, u64::MAX as nat) {
                    Err(e) => Err(e),
                    Ok(n) => Ok((file, n)),
                },
            },
        },
    }
}

pub fn delete(rest: &[String]) -> (r: Result<DeleteRequest, String>)
    ensures
        match delete_args(view_texts(rest@)) {
            Err(message) => r matches Err(e) && e@ == message,
            Ok((file, id)) => r matches Ok(q) && q.file@ == file && q.id == id,
        },
{
    let booleans: [&str; 0] = [];
    assert(view_names(booleans@) =~= Seq::empty());
    let args = Parsed::parse(rest, &booleans)?;
    let file = args.positional(0, "file")?;
    let id: u64 = parse_u64(args.required("id")?)?;
    Ok(DeleteRequest { file: String::from_str(file), id })
}

/// A command with the path of a file alone.
pub open spec fn file_args(tokens: Seq<Seq<char>>) -> Result<Seq<char>, Seq<char>> {
    match parsed(tokens, Seq::empty()) {
        Err(e) => Err(e),
        Ok(args) => positional_arg(args, 0, "file"@),
    }
}

/// The file of a command that takes nothing else (`stats` and `compact`).
pub fn file_argument(rest: &[String]) -> (r: Result<String, String>)
    ensures
        match file_args(view_texts(rest@)) {
            Err(message) => r matches Err(e) && e@ == message,
            Ok(file) => r matches Ok(f) && f@ == file,
        },
{
    let booleans: [&str; 0] = [];
    assert(view_names(booleans@) =~= Seq::empty());
    let args = Parsed::parse(rest, &booleans)?;
    let file = args.positional(0, "file")?;
    Ok(String::from_str(file))
}

/// A command with a source and a target.
pub open spec fn copy_args(
    tokens: Seq<Seq<char>>,
    from: Seq<char>,
    to: Seq<char>,
) -> Result<(Seq<char>, Seq<char>), Seq<char>> {
    match parsed(tokens, Seq::empty()) {
        Err(e) => Err(e),
        Ok(args) => match positional_arg(args, 0, from) {
            Err(e) => Err(e),
            Ok(source) => match positional_arg(args, 1, to) {
                Err(e) => Err(e),
                Ok(target) => Ok((source, target)),
            },
        },
    }
}

fn copy_arguments(rest: &[String], from: &str, to: &str) -> (r: Result<(String, String), String>)
    ensures
        match copy_args(view_texts(rest@), from@, to@) {
            Err(message) => r matches Err(e) && e@ == message,
            Ok((source, target)) => r matches Ok(q) && q.0@ == source && q.1@ == target,
        },
{
    let booleans: [&str; 0] = [];
    assert(view_names(booleans@) =~= Seq::empty());
    let args = Parsed::parse(rest, &booleans)?;
    let source = args.positional(0, from)?;
    let target = args.positional(1, to)?;
    Ok((String::from_str(source), String::from_str(target)))
}

/// The database file and the JSON file to write.
pub fn export(rest: &[String]) -> (r: Result<(String, String), String>)
    ensures
        match copy_args(view_texts(rest@), "file"@, "out.json"@) {
            Err(message) => r matches Err(e) && e@ == message,
            Ok((file, out)) => r matches Ok(q) && q.0@ == file && q.1@ == out,
        },
{
    copy_arguments(rest, "file", "out.json")
}

/// The JSON file and the database file to build.
pub fn import(rest: &[String]) -> (r: Result<(String, String), String>)
    ensures
        match copy_args(view_texts(rest@), "in.json"@, "file"@) {
            Err(message) => r matches Err(e) && e@ == message,
            Ok((input, file)) => r matches Ok(q) && q.0@ == input && q.1@ == file,
        },
{
    copy_arguments(rest, "in.json", "file")
}

} // verus!
