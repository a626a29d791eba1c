use vstd::prelude::*;

verus! {

/// Flag names and the values given after them, as pairs of texts.
pub type FlagPairs = Seq<(Seq<char>, Seq<Seq<char>>)>;

/// The map that a list of (flag, values) pairs stands for.
pub open spec fn flag_map(s: FlagPairs) -> Map<Seq<char>, Seq<Seq<char>>>
    decreases s.len(),
{
    if s.len() == 0 {
        Map::empty()
    } else {
        flag_map(s.drop_last()).insert(s.last().0, s.last().1)
    }
}

/// No flag name occurs twice.
pub open spec fn distinct_keys(s: FlagPairs) -> bool {
    forall|i: int, j: int| 0 <= i < j < s.len() ==> #[trigger] s[i].0 != #[trigger] s[j].0
}

proof fn lemma_flag_map_dom(s: FlagPairs, k: Seq<char>)
    ensures
        flag_map(s).dom().contains(k) <==> exists|i: int| 0 <= i < s.len() && #[trigger] s[i].0 == k,
    decreases s.len(),
{
    if s.len() > 0 {
        let t = s.drop_last();
        lemma_flag_map_dom(t, k);
        if flag_map(s).dom().contains(k) && s.last().0 != k {
            let i = choose|i: int| 0 <= i < t.len() && #[trigger] t[i].0 == k;
            assert(s[i] == t[i]);
        }
        if exists|i: int| 0 <= i < s.len() && #[trigger] s[i].0 == k {
            let i = choose|i: int| 0 <= i < s.len() && #[trigger] s[i].0 == k;
            if i < t.len() {
                assert(t[i] == s[i]);
            }
        }
    }
}

proof fn lemma_flag_map_at(s: FlagPairs, i: int)
    requires
        distinct_keys(s),
        0 <= i < s.len(),
    ensures
        flag_map(s).dom().contains(s[i].0),
        flag_map(s)[s[i].0] == s[i].1,
    decreases s.len(),
{
    let t = s.drop_last();
    if i < s.len() - 1 {
        assert(t[i] == s[i]);
        assert(s[i].0 != s[s.len() - 1].0);
        assert forall|a: int, b: int| 0 <= a < b < t.len() implies #[trigger] t[a].0 != #[trigger] t[b].0 by {
            assert(t[a] == s[a] && t[b] == s[b]);
        }
        lemma_flag_map_at(t, i);
    }
}

/// Whether `s` is written as a flag: it starts with `-`.
pub open spec fn is_flag_text(s: Seq<char>) -> bool {
    s.len() > 0 && s[0] == '-'
}

/// `m` with `value`, if any, added at the end of the values of `key`; the key is
/// present afterwards either way.
pub open spec fn add_flag(m: Map<Seq<char>, Seq<Seq<char>>>, key: Seq<char>, value: Option<Seq<char>>) -> Map<
    Seq<char>,
    Seq<Seq<char>>,
> {
    let before = if m.dom().contains(key) {
        m[key]
    } else {
        seq![]
    };
    m.insert(
        key,
        match value {
            Some(v) => before.push(v),
            None => before,
        },
    )
}

/// Reads the arguments from index `i` on into `m`: an argument that starts with
/// `-` is a flag, and takes the next argument as its value unless that one starts
/// with `-` too; other arguments are skipped.
pub open spec fn scan_flags(args: Seq<Seq<char>>, i: int, m: Map<Seq<char>, Seq<Seq<char>>>) -> Map<
    Seq<char>,
    Seq<Seq<char>>,
>
    decreases args.len() - i,
{
    if i < 0 || i >= args.len() {
        m
    } else if is_flag_text(args[i]) {
        if i + 1 < args.len() && !is_flag_text(args[i + 1]) {
            scan_flags(args, i + 2, add_flag(m, args[i], Some(args[i + 1])))
        } else {
            scan_flags(args, i + 1, add_flag(m, args[i], None))
        }
    } else {
        scan_flags(args, i + 1, m)
    }
}

/// The flags given by `args`.
pub open spec fn flags_of(args: Seq<Seq<char>>) -> Map<Seq<char>, Seq<Seq<char>>> {
    scan_flags(args, 0, Map::empty())
}

/// The position of flag `key` in `entries`, if present.
fn find_key(entries: &Vec<(String, Vec<String>)>, key: &String) -> (r: Option<usize>)
    ensures
        match r {
            Some(i) => i < entries.deep_view().len() && entries.deep_view()[i as int].0 == key@,
            None => !flag_map(entries.deep_view()).dom().contains(key@),
        },
{
    let ghost s = entries.deep_view();
    let mut i: usize = 0;
    while i < entries.len()
        invariant
            s == entries.deep_view(),
            i <= s.len(),
            forall|j: int| 0 <= j < i ==> s[j].0 != key@,
        decreases s.len() - i,
    {
        assert(s[i as int].0 == entries[i as int].0@);
        if entries[i].0 == *key {
            return Some(i);
        }
        i = i + 1;
    }
    proof {
        lemma_flag_map_dom(s, key@);
    }
    None
}

/// Command-line flags: each flag name with the values given after it, in order.
pub struct Flags {
    entries: Vec<(String, Vec<String>)>,
}

impl View for Flags {
    type V = Map<Seq<char>, Seq<Seq<char>>>;

    closed spec fn view(&self) -> Map<Seq<char>, Seq<Seq<char>>> {
        flag_map(self.entries.deep_view())
    }
}

impl Flags {
    #[verifier::type_invariant]
    closed spec fn keys_distinct(self) -> bool {
        distinct_keys(self.entries.deep_view())
    }

    /// No flags.
    pub fn new() -> (r: Flags)
        ensures
            r@ == Map::<Seq<char>, Seq<Seq<char>>>::empty(),
    {
        let r = Flags { entries: Vec::new() };
        assert(r.entries.deep_view() =~= Seq::<(Seq<char>, Seq<Seq<char>>)>::empty());
        r
    }

    /// The values of flag `key`, if present.
    fn values_of(&self, key: &String) -> (r: Option<&Vec<String>>)
        ensures
            match r {
                Some(v) => self@.dom().contains(key@) && v.deep_view() == self@[key@],
                None => !self@.dom().contains(key@),
            },
    {
        proof {
            use_type_invariant(self);
        }
        match find_key(&self.entries, key) {
            Some(i) => {
                proof {
                    lemma_flag_map_at(self.entries.deep_view(), i as int);
                    assert(self.entries.deep_view()[i as int].1 == self.entries[i as int].1.deep_view());
                }
                Some(&self.entries[i].1)
            },
            None => None,
        }
    }

    /// Records flag `key`, with `value` added at the end of its values if given.
    fn add(&mut self, key: String, value: Option<String>)
        ensures
            final(self)@ == add_flag(old(self)@, key@, value.deep_view()),
    {
        proof {
            use_type_invariant(&*self);
        }
        let ghost s = self.entries.deep_view();
        let mut entries: Vec<(String, Vec<String>)> = Vec::new();
        std::mem::swap(&mut entries, &mut self.entries);
        match find_key(&entries, &key) {
            Some(i) => {
                let (k, mut vals) = entries.remove(i);
                let ghost old_vals = vals.deep_view();
                match value {
                    Some(v) => {
                        vals.push(v);
                    },
                    None => {},
                }
                let ghost new_pair = (k@, vals.deep_view());
                proof {
                    lemma_flag_map_at(s, i as int);
                    assert(old_vals == s[i as int].1);
                }
                entries.insert(i, (k, vals));
                proof {
                    let t = entries.deep_view();
                    assert(t =~= s.update(i as int, new_pair));
                    assert forall|a: int, b: int| 0 <= a < b < t.len() implies #[trigger] t[a].0
                        != #[trigger] t[b].0 by {
                        assert(t[a].0 == s[a].0 && t[b].0 == s[b].0);
                    }
                    assert(distinct_keys(t));
                    let m = add_flag(flag_map(s), key@, value.deep_view());
                    assert forall|x: Seq<char>| #[trigger] flag_map(t).dom().contains(x) <==> m.dom().contains(x) by {
                        lemma_flag_map_dom(t, x);
                        lemma_flag_map_dom(s, x);
                        if exists|j: int| 0 <= j < s.len() && #[trigger] s[j].0 == x {
                            let j = choose|j: int| 0 <= j < s.len() && #[trigger] s[j].0 == x;
                            assert(t[j].0 == x);
                        }
                        if exists|j: int| 0 <= j < t.len() && #[trigger] t[j].0 == x {
                            let j = choose|j: int| 0 <= j < t.len() && #[trigger] t[j].0 == x;
                            assert(s[j].0 == x);
                        }
                    }
                    assert forall|x: Seq<char>| #[trigger] flag_map(t).dom().contains(x) implies flag_map(t)[x] == m[x] by {
                        lemma_flag_map_dom(t, x);
                        let j = choose|j: int| 0 <= j < t.len() && #[trigger] t[j].0 == x;
                        lemma_flag_map_at(t, j);
                        if j != i {
                            lemma_flag_map_at(s, j);
                        }
                    }
                    assert(flag_map(t) =~= m);
                }
            },
            None => {
                let mut vals: Vec<String> = Vec::new();
                match value {
                    Some(v) => {
                        vals.push(v);
                    },
                    None => {},
                }
                let ghost new_pair = (key@, vals.deep_view());
                proof {
                    lemma_flag_map_dom(s, key@);
                    assert(vals.deep_view() =~= match value.deep_view() {
                        Some(v) => Seq::<Seq<char>>::empty().push(v),
                        None => Seq::<Seq<char>>::empty(),
                    });
                }
                entries.push((key, vals));
                proof {
                    let t = entries.deep_view();
                    assert(t =~= s.push(new_pair));
                    assert(t.drop_last() =~= s);
                    assert forall|a: int, b: int| 0 <= a < b < t.len() implies #[trigger] t[a].0
                        != #[trigger] t[b].0 by {
                        if b == s.len() {
                            assert(t[a] == s[a]);
                        } else {
                            assert(t[a] == s[a] && t[b] == s[b]);
                        }
                    }
                }
            },
        }
        self.entries = entries;
    }
}

/// Whether `s` starts with `-`.
fn starts_with_dash(s: &String) -> (r: bool)
    ensures
        r == is_flag_text(s@),
        r == (s@.len() > 0 && s@[0] == '-'),
{
    let t = s.as_str();
    if t.is_empty() {
        false
    } else {
        t.get_char(0) == '-'
    }
}

/// Reads command-line arguments into flags: an argument that starts with `-` is
/// a flag and takes the following argument as a value unless that one starts with
/// `-` as well; values of a repeated flag are kept in order; other arguments are
/// skipped.
fn read_flags(args: &[String]) -> (map: Flags)
    ensures
        map@ == flags_of(args.deep_view()),
{
    let ghost a = args.deep_view();
    let mut map = Flags::new();
    let mut i: usize = 0;
    while i < args.len()
        invariant
            a == args.deep_view(),
            i <= a.len(),
            scan_flags(a, i as int, map@) == flags_of(a),
        decreases a.len() - i,
    {
        assert(a[i as int] == args[i as int]@);
        if starts_with_dash(&args[i]) {
            let key = args[i].clone();
            if i + 1 < args.len() && !starts_with_dash(&args[i + 1]) {
                assert(a[i + 1] == args[i + 1]@);
                let value = args[i + 1].clone();
                map.add(key, Some(value));
                i = i + 2;
            } else {
                map.add(key, None);
                i = i + 1;
            }
        } else {
            i = i + 1;
        }
    }
    map
}

/// Reads command-line arguments into flags, as `read_flags` does. Never fails.
pub fn parse_flags(args: &[String]) -> (res: Result<Flags, String>)
    ensures
        res matches Ok(f) && f@ == flags_of(args.deep_view()),
{
    Ok(read_flags(args))
}

/// Whether flag `short` or flag `long` was given.
pub fn has_flag(opts: &Flags, short: &str, long: &str) -> (r: bool)
    ensures
        r == (opts@.dom().contains(short@) || opts@.dom().contains(long@)),
{
    let s = short.to_owned();
    let l = long.to_owned();
    opts.values_of(&s).is_some() || opts.values_of(&l).is_some()
}

/// The first value of a flag, if it has one.
fn first_of(v: &Vec<String>) -> (r: Option<String>)
    ensures
        r.deep_view() == if v.deep_view().len() > 0 {
            Some(v.deep_view()[0])
        } else {
            None
        },
{
    if v.len() > 0 {
        Some(v[0].clone())
    } else {
        None
    }
}

/// The first value of flag `short` when that flag was given, else of `long`.
pub open spec fn first_value(m: Map<Seq<char>, Seq<Seq<char>>>, short: Seq<char>, long: Seq<char>) -> Option<Seq<char>> {
    let vals = if m.dom().contains(short) {
        m[short]
    } else if m.dom().contains(long) {
        m[long]
    } else {
        seq![]
    };
    if vals.len() > 0 {
        Some(vals[0])
    } else {
        None
    }
}

/// The first value of flag `short` if that flag was given, otherwise the first
/// value of `long`; `None` when the flag chosen has no value.
pub fn get_val(opts: &Flags, short: &str, long: &str) -> (r: Option<String>)
    ensures
        r.deep_view() == first_value(opts@, short@, long@),
{
    let s = short.to_owned();
    match opts.values_of(&s) {
        Some(v) => first_of(v),
        None => {
            let l = long.to_owned();
            match opts.values_of(&l) {
                Some(v) => first_of(v),
                None => None,
            }
        },
    }
}

/// The values of `key` in `m`, none if absent.
pub open spec fn values_or_none(m: Map<Seq<char>, Seq<Seq<char>>>, key: Seq<char>) -> Seq<Seq<char>> {
    if m.dom().contains(key) {
        m[key]
    } else {
        seq![]
    }
}

/// Appends copies of the texts in `v` to `out`.
fn push_copies(out: &mut Vec<String>, v: &Vec<String>)
    ensures
        final(out).deep_view() == old(out).deep_view() + v.deep_view(),
{
    let ghost start = out.deep_view();
    let mut i: usize = 0;
    while i < v.len()
        invariant
            i <= v.deep_view().len(),
            out.deep_view() == start + v.deep_view().take(i as int),
        decreases v.deep_view().len() - i,
    {
        let ghost before = out.deep_view();
        out.push(v[i].clone());
        assert(out.deep_view() =~= before.push(v[i as int]@));
        assert(v.deep_view().take(i + 1) =~= v.deep_view().take(i as int).push(v[i as int]@));
        i = i + 1;
    }
    assert(v.deep_view().take(v.deep_view().len() as int) == v.deep_view());
}

/// All values of flag `short`, then all values of flag `long`.
pub fn get_vals(opts: &Flags, short: &str, long: &str) -> (r: Vec<String>)
    ensures
        r.deep_view() == values_or_none(opts@, short@) + values_or_none(opts@, long@),
{
    let mut out: Vec<String> = Vec::new();
    assert(out.deep_view() =~= Seq::<Seq<char>>::empty());
    let s = short.to_owned();
    match opts.values_of(&s) {
        Some(v) => push_copies(&mut out, v),
        None => {},
    }
    let l = long.to_owned();
    match opts.values_of(&l) {
        Some(v) => push_copies(&mut out, v),
        None => {},
    }
    assert(out.deep_view() =~= values_or_none(opts@, short@) + values_or_none(opts@, long@));
    out
}

/// The two subcommands.
#[derive(Debug, Clone, Copy, PartialEq, Eq, Structural)]
pub enum Command {
    Encoder,
    Decoder,
}

/// What a command line asks for.
pub enum Invocation {
    /// No subcommand was given.
    MissingCommand,
    /// General help was asked for.
    Help,
    /// The version was asked for.
    Version,
    /// Help on the named subcommand was asked for.
    CommandHelp(String),
    /// A subcommand to run, with the flags that follow it.
    Run(Command, Flags),
    /// A subcommand that does not exist.
    UnknownCommand(String),
}

/// What `plan_invocation` gives for arguments `a` (the program name first).
pub open spec fn invocation_spec(a: Seq<Seq<char>>, res: Invocation) -> bool {
    if a.len() < 2 {
        res is MissingCommand
    } else {
        let cmd = a[1];
        if cmd == "-h"@ || cmd == "--help"@ || cmd == "help"@ {
            res is Help
        } else if cmd == "-v"@ || cmd == "--version"@ {
            res is Version
        } else {
            let m = flags_of(a.skip(2));
            if m.dom().contains("-h"@) || m.dom().contains("--help"@) {
                res matches Invocation::CommandHelp(c) && c@ == cmd
            } else if cmd == "encoder"@ {
                res matches Invocation::Run(c, f) && c == Command::Encoder && f@ == m
            } else if cmd == "decoder"@ {
                res matches Invocation::Run(c, f) && c == Command::Decoder && f@ == m
            } else {
                res matches Invocation::UnknownCommand(c) && c@ == cmd
            }
        }
    }
}

/// Whether `s` reads `lit`.
fn text_is(s: &String, lit: &str) -> (r: bool)
    ensures
        r == (s@ == lit@),
{
    *s == lit.to_owned()
}

/// Decides what a command line asks for: the subcommand is the second argument,
/// and its flags are the arguments after it.
pub fn plan_invocation(args: &[String]) -> (res: Invocation)
    ensures
        invocation_spec(args.deep_view(), res),
        args@.len() >= 2 && args@[1]@ == "encoder"@ && !flags_of(args.deep_view().skip(2)).dom().contains(
            "-h"@,
        ) && !flags_of(args.deep_view().skip(2)).dom().contains("--help"@) ==> (res matches Invocation::Run(
            c,
            f,
        ) && c == Command::Encoder && f@ == flags_of(args.deep_view().skip(2))),
        args@.len() >= 2 && args@[1]@ == "decoder"@ && !flags_of(args.deep_view().skip(2)).dom().contains(
            "-h"@,
        ) && !flags_of(args.deep_view().skip(2)).dom().contains("--help"@) ==> (res matches Invocation::Run(
            c,
            f,
        ) && c == Command::Decoder && f@ == flags_of(args.deep_view().skip(2))),
{
    let ghost a = args.deep_view();
    proof {
        reveal_strlit("encoder");
        reveal_strlit("decoder");
        reveal_strlit("-h");
        reveal_strlit("--help");
        reveal_strlit("help");
        reveal_strlit("-v");
        reveal_strlit("--version");
        assert("encoder"@[0] != "decoder"@[0]);
    }
    if args.len() < 2 {
        return Invocation::MissingCommand;
    }
    let cmd = &args[1];
    assert(a[1] == cmd@);
    if text_is(cmd, "-h") || text_is(cmd, "--help") || text_is(cmd, "help") {
        return Invocation::Help;
    }
    if text_is(cmd, "-v") || text_is(cmd, "--version") {
        return Invocation::Version;
    }
    let rest = vstd::slice::slice_subrange(args, 2, args.len());
    assert(rest.deep_view() =~= a.skip(2));
    let opts = read_flags(rest);
    if has_flag(&opts, "-h", "--help") {
        return Invocation::CommandHelp(cmd.clone());
    }
    if text_is(cmd, "encoder") {
        Invocation::Run(Command::Encoder, opts)
    } else if text_is(cmd, "decoder") {
        Invocation::Run(Command::Decoder, opts)
    } else {
        Invocation::UnknownCommand(cmd.clone())
    }
}

/// Why a subcommand's flags do not describe a job.
#[derive(Debug, Clone, Copy, PartialEq, Eq, Structural)]
pub enum CliError {
    /// The encoder was given no `--output`.
    MissingOutput,
    /// The encoder was given none of `--file`, `--dir`, `--batch`.
    NoEncoderInput,
    /// The decoder was given none of `--file`, `--batch`, `--recursive`.
    NoDecoderInput,
}

/// What the encoder is asked to do.
pub enum EncoderJob {
    /// Archive the files of directory `dir` (and below it when `recursive`).
    Dir { dir: String, recursive: bool, output: String },
    /// Archive the single file `file`.
    File { file: String, output: String },
    /// Archive the listed files, and the files of the listed directories. `-r`
    /// applies here too: a listed directory is read recursively when `recursive`,
    /// although the usage text mentions it only with `--dir`.
    Batch { items: Vec<String>, recursive: bool, output: String },
}

/// Whether `--recursive` was given, in either form.
pub open spec fn recursive_flag(m: Map<Seq<char>, Seq<Seq<char>>>) -> bool {
    m.dom().contains("-r"@) || m.dom().contains("--recursive"@)
}

/// The values given with `--batch`, in either form.
pub open spec fn batch_values(m: Map<Seq<char>, Seq<Seq<char>>>) -> Seq<Seq<char>> {
    values_or_none(m, "-b"@) + values_or_none(m, "--batch"@)
}

/// What `plan_encoder` gives for flags `m`: an output is required; then a
/// directory comes before a single file, and a file before a batch.
pub open spec fn encoder_spec(m: Map<Seq<char>, Seq<Seq<char>>>, res: Result<EncoderJob, CliError>) -> bool {
    let output = first_value(m, "-o"@, "--output"@);
    let dir = first_value(m, "-d"@, "--dir"@);
    let file = first_value(m, "-f"@, "--file"@);
    match output {
        None => res == Err::<EncoderJob, CliError>(CliError::MissingOutput),
        Some(o) => if dir is Some {
            res matches Ok(EncoderJob::Dir { dir: d, recursive: r, output: p }) && d@ == dir->0 && r
                == recursive_flag(m) && p@ == o
        } else if file is Some {
            res matches Ok(EncoderJob::File { file: f, output: p }) && f@ == file->0 && p@ == o
        } else if batch_values(m).len() > 0 {
            res matches Ok(EncoderJob::Batch { items: b, recursive: r, output: p }) && b.deep_view()
                == batch_values(m) && r == recursive_flag(m) && p@ == o
        } else {
            res == Err::<EncoderJob, CliError>(CliError::NoEncoderInput)
        },
    }
}

/// Decides the encoder's job from its flags.
pub fn plan_encoder(opts: &Flags) -> (res: Result<EncoderJob, CliError>)
    ensures
        encoder_spec(opts@, res),
        res matches Ok(EncoderJob::Dir { recursive: r, .. }) ==> r == (opts@.dom().contains("-r"@)
            || opts@.dom().contains("--recursive"@)),
        res matches Ok(EncoderJob::Batch { recursive: r, .. }) ==> r == (opts@.dom().contains("-r"@)
            || opts@.dom().contains("--recursive"@)),
{
    let file = get_val(opts, "-f", "--file");
    let dir = get_val(opts, "-d", "--dir");
    let batch = get_vals(opts, "-b", "--batch");
    let recursive = has_flag(opts, "-r", "--recursive");
    let output = match get_val(opts, "-o", "--output") {
        Some(o) => o,
        None => {
            return Err(CliError::MissingOutput);
        },
    };
    match dir {
        Some(d) => {
            return Ok(EncoderJob::Dir { dir: d, recursive, output });
        },
        None => {},
    }
    match file {
        Some(f) => {
            return Ok(EncoderJob::File { file: f, output });
        },
        None => {},
    }
    if batch.len() > 0 {
        return Ok(EncoderJob::Batch { items: batch, recursive, output });
    }
    Err(CliError::NoEncoderInput)
}

/// What the decoder is asked to do; extracted files go under `out_dir`.
pub enum DecoderJob {
    /// Extract the single archive `file`.
    File { file: String, out_dir: String },
    /// Extract each listed archive into a directory named after it.
    Batch { items: Vec<String>, out_dir: String },
    /// Extract every archive found below `scan_dir`.
    Scan { scan_dir: String, out_dir: String },
}

/// What `plan_decoder` gives for flags `m`: the output directory defaults to
/// `.`; a single file comes before a batch, and a batch before a scan.
pub open spec fn decoder_spec(m: Map<Seq<char>, Seq<Seq<char>>>, res: Result<DecoderJob, CliError>) -> bool {
    let dir = first_value(m, "-d"@, "--dir"@);
    let out_dir = if dir is Some {
        dir->0
    } else {
        "."@
    };
    let file = first_value(m, "-f"@, "--file"@);
    if file is Some {
        res matches Ok(DecoderJob::File { file: f, out_dir: o }) && f@ == file->0 && o@ == out_dir
    } else if batch_values(m).len() > 0 {
        res matches Ok(DecoderJob::Batch { items: b, out_dir: o }) && b.deep_view() == batch_values(m)
            && o@ == out_dir
    } else if recursive_flag(m) {
        res matches Ok(DecoderJob::Scan { scan_dir: s, out_dir: o }) && s@ == "."@ && o@ == out_dir
    } else {
        res == Err::<DecoderJob, CliError>(CliError::NoDecoderInput)
    }
}

/// The directory a decoder job extracts into.
pub open spec fn decoder_out_dir(job: DecoderJob) -> String {
    match job {
        DecoderJob::File { out_dir, .. } => out_dir,
        DecoderJob::Batch { out_dir, .. } => out_dir,
        DecoderJob::Scan { out_dir, .. } => out_dir,
    }
}

/// Decides the decoder's job from its flags.
pub fn plan_decoder(opts: &Flags) -> (res: Result<DecoderJob, CliError>)
    ensures
        decoder_spec(opts@, res),
        res is Ok ==> decoder_out_dir(res->Ok_0)@ == (if opts@.dom().contains("-d"@) && opts@["-d"@].len()
            > 0 {
            opts@["-d"@][0]
        } else if !opts@.dom().contains("-d"@) && opts@.dom().contains("--dir"@) && opts@["--dir"@].len()
            > 0 {
            opts@["--dir"@][0]
        } else {
            "."@
        }),
{
    let file = get_val(opts, "-f", "--file");
    let dir = get_val(opts, "-d", "--dir");
    let batch = get_vals(opts, "-b", "--batch");
    let recursive = has_flag(opts, "-r", "--recursive");
    let out_dir = match dir {
        Some(d) => d,
        None => ".".to_owned(),
    };
    match file {
        Some(f) => {
            return Ok(DecoderJob::File { file: f, out_dir });
        },
        None => {},
    }
    if batch.len() > 0 {
        return Ok(DecoderJob::Batch { items: batch, out_dir });
    }
    if recursive {
        let scan_dir = match get_val(opts, "-f", "--file") {
            Some(f) => f,
            None => ".".to_owned(),
        };
        return Ok(DecoderJob::Scan { scan_dir, out_dir });
    }
    Err(CliError::NoDecoderInput)
}

} // verus!
