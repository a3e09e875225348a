//! The configuration document format: a deterministic, line-oriented
//! rendering of the desired configuration, and a parser for it.  The
//! document is a small TOML subset: optional `default_sched` and
//! `default_mode` lines, then one `[scheds."name"]` table per scheduler
//! with one `<mode>_mode = [..]` line per stored argument set.

use vstd::prelude::*;

use crate::modes::{mode_of_word, word_of, SchedMode};
use crate::store::{entry_mode_args, entry_with_args, Config, ConfigV, EntryV, SchedEntry};
use crate::text::{split_on, str_ok, strs_ok};

verus! {

/// A logical line of the document.
#[verifier::ext_equal]
pub ghost enum LineV {
    /// `default_sched = "<name>"`
    DefaultSched(Seq<char>),
    /// `default_mode = "<Mode>"`
    DefaultMode(SchedMode),
    /// `[scheds."<name>"]`
    Header(Seq<char>),
    /// `<mode>_mode = ["<arg>", ..]`
    Field(SchedMode, Seq<Seq<char>>),
}

/// The payload strings of the line are storable.
pub open spec fn line_wf(l: LineV) -> bool {
    match l {
        LineV::DefaultSched(n) => str_ok(n),
        LineV::DefaultMode(_) => true,
        LineV::Header(n) => str_ok(n),
        LineV::Field(_, args) => strs_ok(args),
    }
}

/// `s` wrapped in double quotes.
pub open spec fn quoted(s: Seq<char>) -> Seq<char> {
    seq!['"'] + s + seq!['"']
}

/// The arguments as a comma-separated list of quoted strings.
pub open spec fn render_args(args: Seq<Seq<char>>) -> Seq<char>
    decreases args.len(),
{
    if args.len() == 0 {
        Seq::<char>::empty()
    } else if args.len() == 1 {
        quoted(args[0])
    } else {
        quoted(args[0]) + ", "@ + render_args(args.skip(1))
    }
}

/// The document key of a mode's argument-set field.
pub open spec fn key_of(m: SchedMode) -> Seq<char> {
    match m {
        SchedMode::Auto => "auto_mode"@,
        SchedMode::Gaming => "gaming_mode"@,
        SchedMode::LowLatency => "lowlatency_mode"@,
        SchedMode::PowerSave => "powersave_mode"@,
        SchedMode::Server => "server_mode"@,
    }
}

/// The text of one line, without its line break.
pub open spec fn render_line(l: LineV) -> Seq<char> {
    match l {
        LineV::DefaultSched(n) => "default_sched = "@ + quoted(n),
        LineV::DefaultMode(m) => "default_mode = "@ + quoted(word_of(m)),
        LineV::Header(n) => "[scheds."@ + quoted(n) + "]"@,
        LineV::Field(m, args) => key_of(m) + " = ["@ + render_args(args) + "]"@,
    }
}

/// The lines of one per-scheduler record: its header, then one field line
/// per stored argument set, in the fixed field order.
pub open spec fn entry_lines(e: EntryV) -> Seq<LineV> {
    seq![LineV::Header(e.name)] + opt_field_line(SchedMode::Auto, e.auto_mode) + opt_field_line(
        SchedMode::Gaming,
        e.gaming_mode,
    ) + opt_field_line(SchedMode::LowLatency, e.lowlatency_mode) + opt_field_line(
        SchedMode::PowerSave,
        e.powersave_mode,
    ) + opt_field_line(SchedMode::Server, e.server_mode)
}

/// A field line for a stored argument set, or nothing.
pub open spec fn opt_field_line(m: SchedMode, args: Option<Seq<Seq<char>>>) -> Seq<LineV> {
    match args {
        Some(a) => seq![LineV::Field(m, a)],
        None => Seq::<LineV>::empty(),
    }
}

/// The lines of all records, in order.
pub open spec fn entries_lines(s: Seq<EntryV>) -> Seq<LineV>
    decreases s.len(),
{
    if s.len() == 0 {
        Seq::<LineV>::empty()
    } else {
        entry_lines(s[0]) + entries_lines(s.skip(1))
    }
}

/// The lines of the whole document: the default pair, then the records.
pub open spec fn lines_of(c: ConfigV) -> Seq<LineV> {
    (match c.default_sched {
        Some(n) => seq![LineV::DefaultSched(n)],
        None => Seq::<LineV>::empty(),
    }) + (match c.default_mode {
        Some(m) => seq![LineV::DefaultMode(m)],
        None => Seq::<LineV>::empty(),
    }) + entries_lines(c.scheds)
}

/// The document text: each line followed by a line break.
pub open spec fn text_of(ls: Seq<LineV>) -> Seq<char>
    decreases ls.len(),
{
    if ls.len() == 0 {
        Seq::<char>::empty()
    } else {
        render_line(ls[0]) + seq!['\n'] + text_of(ls.skip(1))
    }
}

/// The least index of `c` in `s`, or -1 when `c` does not occur.
pub open spec fn find_char(s: Seq<char>, c: char) -> int
    decreases s.len(),
{
    if s.len() == 0 {
        -1
    } else if s[0] == c {
        0
    } else {
        let r = find_char(s.skip(1), c);
        if r < 0 {
            -1
        } else {
            r + 1
        }
    }
}

/// `find_char` yields -1 or the least index holding `c`.
pub proof fn lemma_find_char(s: Seq<char>, c: char)
    ensures
        find_char(s, c) == -1 || (0 <= find_char(s, c) < s.len() && s[find_char(s, c)] == c),
        find_char(s, c) == -1 ==> forall|i: int| 0 <= i < s.len() ==> s[i] != c,
        forall|i: int| 0 <= i < s.len() && #[trigger] s[i] == c ==> 0 <= find_char(s, c) <= i,
    decreases s.len(),
{
    if s.len() > 0 && s[0] != c {
        lemma_find_char(s.skip(1), c);
        assert(forall|i: int| 1 <= i < s.len() ==> #[trigger] s[i] == s.skip(1)[i - 1]);
    }
}

/// A whole quoted string: `"X"` where X is storable.
pub open spec fn parse_quoted_all(s: Seq<char>) -> Option<Seq<char>> {
    if s.len() >= 2 && s[0] == '"' && s.last() == '"' && str_ok(s.subrange(1, s.len() - 1)) {
        Some(s.subrange(1, s.len() - 1))
    } else {
        None
    }
}

/// A comma-separated list of quoted storable strings, as rendered by
/// `render_args`.
pub open spec fn parse_args(s: Seq<char>) -> Option<Seq<Seq<char>>>
    decreases s.len(),
    via parse_args_dec
{
    if s.len() == 0 {
        Some(Seq::<Seq<char>>::empty())
    } else if s[0] != '"' {
        None
    } else {
        let j = find_char(s.skip(1), '"');
        if j < 0 {
            None
        } else {
            let tok = s.subrange(1, j + 1);
            let rest = s.skip(j + 2);
            if !str_ok(tok) {
                None
            } else if rest.len() == 0 {
                Some(seq![tok])
            } else if rest.len() >= 2 && rest[0] == ',' && rest[1] == ' ' {
                match parse_args(rest.skip(2)) {
                    Some(tail) => Some(seq![tok] + tail),
                    None => None,
                }
            } else {
                None
            }
        }
    }
}

#[via_fn]
proof fn parse_args_dec(s: Seq<char>) {
    if s.len() > 0 && s[0] == '"' {
        lemma_find_char(s.skip(1), '"');
    }
}

/// `p` begins `s`.
pub open spec fn is_prefix(s: Seq<char>, p: Seq<char>) -> bool {
    p.len() <= s.len() && s.subrange(0, p.len() as int) == p
}

/// The logical line a line of text denotes, if any.
pub open spec fn parse_line(s: Seq<char>) -> Option<LineV> {
    if is_prefix(s, "default_sched = "@) {
        match parse_quoted_all(s.skip("default_sched = "@.len() as int)) {
            Some(n) => Some(LineV::DefaultSched(n)),
            None => None,
        }
    } else if is_prefix(s, "default_mode = "@) {
        match parse_quoted_all(s.skip("default_mode = "@.len() as int)) {
            Some(w) => match mode_of_word(w) {
                Some(m) => Some(LineV::DefaultMode(m)),
                None => None,
            },
            None => None,
        }
    } else if is_prefix(s, "[scheds."@) {
        let rest = s.skip("[scheds."@.len() as int);
        if rest.len() >= 1 && rest.last() == ']' {
            let inner = rest.drop_last();
            if inner.len() >= 1 && inner[0] == '"' {
                match parse_quoted_all(inner) {
                    Some(n) => Some(LineV::Header(n)),
                    None => None,
                }
            } else if inner.len() >= 1 && str_ok(inner) {
                Some(LineV::Header(inner))
            } else {
                None
            }
        } else {
            None
        }
    } else {
        parse_field_line(s)
    }
}

/// A field line `<key> = [..]`, for whichever mode key begins it.
pub open spec fn parse_field_line(s: Seq<char>) -> Option<LineV> {
    if is_prefix(s, key_of(SchedMode::Auto) + " = ["@) {
        parse_field_rest(s, SchedMode::Auto)
    } else if is_prefix(s, key_of(SchedMode::Gaming) + " = ["@) {
        parse_field_rest(s, SchedMode::Gaming)
    } else if is_prefix(s, key_of(SchedMode::LowLatency) + " = ["@) {
        parse_field_rest(s, SchedMode::LowLatency)
    } else if is_prefix(s, key_of(SchedMode::PowerSave) + " = ["@) {
        parse_field_rest(s, SchedMode::PowerSave)
    } else if is_prefix(s, key_of(SchedMode::Server) + " = ["@) {
        parse_field_rest(s, SchedMode::Server)
    } else {
        None
    }
}

/// The tail of a field line after its key: the bracketed argument list.
pub open spec fn parse_field_rest(s: Seq<char>, m: SchedMode) -> Option<LineV> {
    let rest = s.skip(key_of(m).len() + " = ["@.len() as int);
    if rest.len() >= 1 && rest.last() == ']' {
        match parse_args(rest.drop_last()) {
            Some(args) => Some(LineV::Field(m, args)),
            None => None,
        }
    } else {
        None
    }
}

/// The non-empty lines, in order.
pub open spec fn nonblank(ls: Seq<Seq<char>>) -> Seq<Seq<char>>
    decreases ls.len(),
{
    if ls.len() == 0 {
        Seq::<Seq<char>>::empty()
    } else {
        nonblank(ls.drop_last()) + if ls.last().len() > 0 {
            seq![ls.last()]
        } else {
            Seq::<Seq<char>>::empty()
        }
    }
}

/// A record list already holds a record of this name.
pub open spec fn contains_name(es: Seq<EntryV>, n: Seq<char>) -> bool {
    exists|i: int| 0 <= i < es.len() && #[trigger] es[i].name == n
}

/// A record with no stored argument sets.
pub open spec fn empty_entry(n: Seq<char>) -> EntryV {
    EntryV {
        name: n,
        auto_mode: None,
        gaming_mode: None,
        lowlatency_mode: None,
        powersave_mode: None,
        server_mode: None,
    }
}

/// Reads field lines into `acc` until a header or the end; a duplicate
/// field or a misplaced line is an error.  Yields the finished record and
/// the unconsumed lines.
pub open spec fn parse_fields_t(ls: Seq<Seq<char>>, acc: EntryV) -> Option<(EntryV, Seq<Seq<char>>)>
    decreases ls.len(),
{
    if ls.len() == 0 {
        Some((acc, ls))
    } else {
        match parse_line(ls[0]) {
            Some(LineV::Field(m, args)) => if entry_mode_args(acc, m) is None {
                parse_fields_t(ls.skip(1), entry_with_args(acc, m, args))
            } else {
                None
            },
            Some(LineV::Header(_)) => Some((acc, ls)),
            _ => None,
        }
    }
}

/// The unconsumed lines are a suffix no longer than the input.
pub proof fn lemma_parse_fields_rest(ls: Seq<Seq<char>>, acc: EntryV)
    ensures
        parse_fields_t(ls, acc) matches Some(r) ==> r.1.len() <= ls.len(),
    decreases ls.len(),
{
    if ls.len() > 0 {
        match parse_line(ls[0]) {
            Some(LineV::Field(m, args)) => {
                if entry_mode_args(acc, m) is None {
                    lemma_parse_fields_rest(ls.skip(1), entry_with_args(acc, m, args));
                }
            },
            _ => {},
        }
    }
}

/// Reads the record tables: each begins with a header whose name must be
/// new, followed by its field lines.
pub open spec fn parse_entries_t(ls: Seq<Seq<char>>) -> Option<Seq<EntryV>>
    decreases ls.len(),
    via parse_entries_t_dec
{
    if ls.len() == 0 {
        Some(Seq::<EntryV>::empty())
    } else {
        match parse_line(ls[0]) {
            Some(LineV::Header(n)) => match parse_fields_t(ls.skip(1), empty_entry(n)) {
                Some(r) => match parse_entries_t(r.1) {
                    Some(es) => if contains_name(es, n) {
                        None
                    } else {
                        Some(seq![r.0] + es)
                    },
                    None => None,
                },
                None => None,
            },
            _ => None,
        }
    }
}

#[via_fn]
proof fn parse_entries_t_dec(ls: Seq<Seq<char>>) {
    if ls.len() > 0 {
        match parse_line(ls[0]) {
            Some(LineV::Header(n)) => {
                lemma_parse_fields_rest(ls.skip(1), empty_entry(n));
            },
            _ => {},
        }
    }
}

/// The configuration the non-blank document lines denote, if any: an
/// optional `default_sched` line (which must be followed at once by a
/// `default_mode` line), an optional `default_mode` line, then the record
/// tables.
pub open spec fn parse_doc_texts(ls: Seq<Seq<char>>) -> Option<ConfigV> {
    if ls.len() == 0 {
        Some(ConfigV { default_sched: None, default_mode: None, scheds: Seq::<EntryV>::empty() })
    } else {
        match parse_line(ls[0]) {
            Some(LineV::DefaultSched(n)) => if ls.len() >= 2 {
                match parse_line(ls[1]) {
                    Some(LineV::DefaultMode(m)) => match parse_entries_t(ls.skip(2)) {
                        Some(es) => Some(
                            ConfigV {
                                default_sched: Some(n),
                                default_mode: Some(m),
                                scheds: es,
                            },
                        ),
                        None => None,
                    },
                    _ => None,
                }
            } else {
                None
            },
            Some(LineV::DefaultMode(m)) => match parse_entries_t(ls.skip(1)) {
                Some(es) => Some(
                    ConfigV { default_sched: None, default_mode: Some(m), scheds: es },
                ),
                None => None,
            },
            Some(LineV::Header(_)) => match parse_entries_t(ls) {
                Some(es) => Some(ConfigV { default_sched: None, default_mode: None, scheds: es }),
                None => None,
            },
            _ => None,
        }
    }
}

/// The configuration a whole document denotes: the empty document is
/// refused, as an empty configuration file always is.
pub open spec fn parse_document(text: Seq<char>) -> Option<ConfigV> {
    if text.len() == 0 {
        None
    } else {
        parse_doc_texts(nonblank(split_on(text, '\n')))
    }
}


/// Rendering distributes over concatenation of line lists.
pub proof fn lemma_text_of_append(a: Seq<LineV>, b: Seq<LineV>)
    ensures
        text_of(a + b) == text_of(a) + text_of(b),
    decreases a.len(),
{
    if a.len() == 0 {
        assert(a + b =~= b);
        assert(text_of(a) + text_of(b) =~= text_of(b));
    } else {
        lemma_text_of_append(a.skip(1), b);
        assert((a + b).skip(1) =~= a.skip(1) + b);
        assert(render_line((a + b)[0]) + seq!['\n'] + (text_of(a.skip(1)) + text_of(b)) =~= (
        render_line(a[0]) + seq!['\n'] + text_of(a.skip(1))) + text_of(b));
    }
}

/// The text of a single line.
pub proof fn lemma_text_of_single(l: LineV)
    ensures
        text_of(seq![l]) == render_line(l) + seq!['\n'],
{
    assert(seq![l].skip(1) =~= Seq::<LineV>::empty());
    assert(render_line(l) + seq!['\n'] + text_of(Seq::<LineV>::empty()) =~= render_line(l)
        + seq!['\n']);
}

/// The document key of a mode's argument-set field.
pub fn mode_key(m: SchedMode) -> (r: &'static str)
    ensures
        r@ == key_of(m),
{
    match m {
        SchedMode::Auto => "auto_mode",
        SchedMode::Gaming => "gaming_mode",
        SchedMode::LowLatency => "lowlatency_mode",
        SchedMode::PowerSave => "powersave_mode",
        SchedMode::Server => "server_mode",
    }
}

/// Appends `args[from..]` of the comma-separated quoted list.
fn append_args(out: &mut String, args: &Vec<String>, from: usize)
    requires
        from <= args@.len(),
    ensures
        final(out)@ == old(out)@ + render_args(args.deep_view().skip(from as int)),
    decreases args@.len() - from,
{
    proof {
        reveal_strlit("\"");
        assert(args.deep_view().len() == args@.len());
    }
    if from == args.len() {
        proof {
            assert(args.deep_view().skip(from as int) =~~= Seq::<Seq<char>>::empty());
            assert(old(out)@ + render_args(args.deep_view().skip(from as int)) =~= old(out)@);
        }
    } else {
        let ghost dv = args.deep_view();
        out.append("\"");
        out.append(args[from].as_str());
        out.append("\"");
        proof {
            assert(dv[from as int] == args@[from as int]@);
            assert(out@ =~= old(out)@ + quoted(dv[from as int]));
        }
        if from + 1 < args.len() {
            out.append(", ");
            let ghost mid = out@;
            append_args(out, args, from + 1);
            proof {
                assert(dv.skip(from as int)[0] == dv[from as int]);
                assert(dv.skip(from as int).len() > 1);
                assert(dv.skip(from as int).skip(1) =~~= dv.skip(from as int + 1));
                assert(out@ =~= old(out)@ + (quoted(dv[from as int]) + ", "@ + render_args(
                    dv.skip(from as int + 1),
                )));
            }
        } else {
            proof {
                assert(dv.skip(from as int).len() == 1);
                assert(dv.skip(from as int)[0] == dv[from as int]);
                assert(render_args(dv.skip(from as int)) == quoted(dv.skip(from as int)[0]));
            }
        }
    }
}

/// Appends one field line with its line break.
fn append_field(out: &mut String, m: SchedMode, args: &Vec<String>)
    ensures
        final(out)@ == old(out)@ + render_line(LineV::Field(m, args.deep_view())) + seq!['\n'],
{
    let key = mode_key(m);
    out.append(key);
    out.append(" = [");
    append_args(out, args, 0);
    out.append("]");
    out.append("\n");
    proof {
        reveal_strlit("]");
        reveal_strlit("\n");
        assert(args.deep_view().skip(0) =~~= args.deep_view());
        assert(render_line(LineV::Field(m, args.deep_view())) == key_of(m) + " = ["@ + render_args(
            args.deep_view(),
        ) + "]"@);
        assert(out@ =~= old(out)@ + (key_of(m) + " = ["@ + render_args(args.deep_view()) + "]"@)
            + seq!['\n']);
    }
}

/// Appends one record: its header line and its stored field lines.
#[verifier::rlimit(100)]
fn append_entry(out: &mut String, e: &SchedEntry)
    ensures
        final(out)@ == old(out)@ + text_of(entry_lines(e@)),
{
    proof {
        reveal_strlit("\"");
        reveal_strlit("\"]");
        reveal_strlit("]");
        reveal_strlit("\n");
    }
    out.append("[scheds.");
    out.append("\"");
    out.append(e.name.as_str());
    out.append("\"]");
    out.append("\n");
    let ghost l0 = seq![LineV::Header(e@.name)];
    proof {
        assert(out@ =~= old(out)@ + ("[scheds."@ + quoted(e.name@) + "]"@) + seq!['\n']);
        lemma_text_of_single(LineV::Header(e@.name));
        assert(out@ =~= old(out)@ + text_of(l0));
    }
    match &e.auto_mode {
        Some(v) => append_field(out, SchedMode::Auto, v),
        None => (),
    }
    let ghost f1 = opt_field_line(SchedMode::Auto, e@.auto_mode);
    let ghost l1 = l0 + f1;
    proof {
        match e@.auto_mode {
            Some(a) => lemma_text_of_single(LineV::Field(SchedMode::Auto, a)),
            None => (),
        }
        lemma_text_of_append(l0, f1);
        assert(out@ =~= old(out)@ + text_of(l1));
    }
    match &e.gaming_mode {
        Some(v) => append_field(out, SchedMode::Gaming, v),
        None => (),
    }
    let ghost f2 = opt_field_line(SchedMode::Gaming, e@.gaming_mode);
    let ghost l2 = l1 + f2;
    proof {
        match e@.gaming_mode {
            Some(a) => lemma_text_of_single(LineV::Field(SchedMode::Gaming, a)),
            None => (),
        }
        lemma_text_of_append(l1, f2);
        assert(out@ =~= old(out)@ + text_of(l2));
    }
    match &e.lowlatency_mode {
        Some(v) => append_field(out, SchedMode::LowLatency, v),
        None => (),
    }
    let ghost f3 = opt_field_line(SchedMode::LowLatency, e@.lowlatency_mode);
    let ghost l3 = l2 + f3;
    proof {
        match e@.lowlatency_mode {
            Some(a) => lemma_text_of_single(LineV::Field(SchedMode::LowLatency, a)),
            None => (),
        }
        lemma_text_of_append(l2, f3);
        assert(out@ =~= old(out)@ + text_of(l3));
    }
    match &e.powersave_mode {
        Some(v) => append_field(out, SchedMode::PowerSave, v),
        None => (),
    }
    let ghost f4 = opt_field_line(SchedMode::PowerSave, e@.powersave_mode);
    let ghost l4 = l3 + f4;
    proof {
        match e@.powersave_mode {
            Some(a) => lemma_text_of_single(LineV::Field(SchedMode::PowerSave, a)),
            None => (),
        }
        lemma_text_of_append(l3, f4);
        assert(out@ =~= old(out)@ + text_of(l4));
    }
    match &e.server_mode {
        Some(v) => append_field(out, SchedMode::Server, v),
        None => (),
    }
    let ghost f5 = opt_field_line(SchedMode::Server, e@.server_mode);
    let ghost l5 = l4 + f5;
    proof {
        match e@.server_mode {
            Some(a) => lemma_text_of_single(LineV::Field(SchedMode::Server, a)),
            None => (),
        }
        lemma_text_of_append(l4, f5);
        assert(out@ =~= old(out)@ + text_of(l5));
        assert(l5 =~~= entry_lines(e@));
    }
}

/// Appends the records from index `i` on.
fn append_entries(out: &mut String, scheds: &Vec<SchedEntry>, i: usize)
    requires
        i <= scheds@.len(),
    ensures
        final(out)@ == old(out)@ + text_of(
            entries_lines(scheds@.map_values(|e: SchedEntry| e@).skip(i as int)),
        ),
    decreases scheds@.len() - i,
{
    let ghost evs = scheds@.map_values(|e: SchedEntry| e@);
    if i == scheds.len() {
        proof {
            assert(evs.skip(i as int) =~~= Seq::<EntryV>::empty());
        }
    } else {
        append_entry(out, &scheds[i]);
        proof {
            assert(evs.skip(i as int)[0] == evs[i as int]);
            assert(evs[i as int] == scheds@[i as int]@);
        }
        append_entries(out, scheds, i + 1);
        proof {
            assert(evs.skip(i as int).skip(1) =~~= evs.skip(i as int + 1));
            lemma_text_of_append(
                entry_lines(evs.skip(i as int)[0]),
                entries_lines(evs.skip(i as int).skip(1)),
            );
            assert(out@ =~= old(out)@ + text_of(entries_lines(evs.skip(i as int))));
        }
    }
}

impl Config {
    /// Renders the configuration as its document text: deterministic, one
    /// line per stored item, each line ended by a line break.
    pub fn render(&self) -> (r: String)
        ensures
            r@ == text_of(lines_of(self@)),
    {
        proof {
            reveal_strlit("\"");
            reveal_strlit("\"\n");
        }
        let mut out = String::new();
        let ghost ds = self@.default_sched;
        let ghost dm = self@.default_mode;
        match &self.default_sched {
            Some(n) => {
                out.append("default_sched = ");
                out.append("\"");
                out.append(n.as_str());
                out.append("\"\n");
            },
            None => (),
        }
        let ghost a = match self@.default_sched {
            Some(n) => seq![LineV::DefaultSched(n)],
            None => Seq::<LineV>::empty(),
        };
        proof {
            match ds {
                Some(n) => {
                    lemma_text_of_single(LineV::DefaultSched(n));
                    assert(render_line(LineV::DefaultSched(n)) == "default_sched = "@ + quoted(n));
                },
                None => {},
            }
            assert(out@ =~= text_of(a));
        }
        match &self.default_mode {
            Some(m) => {
                out.append("default_mode = ");
                out.append("\"");
                out.append(crate::modes::mode_word(*m));
                out.append("\"\n");
            },
            None => (),
        }
        let ghost b = match self@.default_mode {
            Some(m) => seq![LineV::DefaultMode(m)],
            None => Seq::<LineV>::empty(),
        };
        proof {
            match dm {
                Some(m) => {
                    lemma_text_of_single(LineV::DefaultMode(m));
                    assert(render_line(LineV::DefaultMode(m)) == "default_mode = "@ + quoted(
                        word_of(m),
                    ));
                },
                None => {},
            }
            assert(out@ =~= text_of(a) + text_of(b));
        }
        append_entries(&mut out, &self.scheds, 0);
        proof {
            let evs = self.scheds@.map_values(|e: SchedEntry| e@);
            assert(evs.skip(0) =~~= evs);
            lemma_text_of_append(a, b);
            lemma_text_of_append(a + b, entries_lines(evs));
            assert(lines_of(self@) =~~= a + b + entries_lines(evs));
            assert(out@ =~= text_of(lines_of(self@)));
        }
        out
    }
}


/// A parsed line's token strings are storable.
pub proof fn lemma_parse_args_wf(s: Seq<char>)
    ensures
        parse_args(s) matches Some(args) ==> strs_ok(args),
    decreases s.len(),
{
    if s.len() > 0 && s[0] == '"' {
        lemma_find_char(s.skip(1), '"');
        let j = find_char(s.skip(1), '"');
        if j >= 0 {
            let tok = s.subrange(1, j + 1);
            let rest = s.skip(j + 2);
            if str_ok(tok) && rest.len() >= 2 && rest[0] == ',' && rest[1] == ' ' {
                lemma_parse_args_wf(rest.skip(2));
                match parse_args(rest.skip(2)) {
                    Some(tail) => {
                        assert forall|i: int|
                            0 <= i < (seq![tok] + tail).len() implies str_ok(
                            #[trigger] (seq![tok] + tail)[i],
                        ) by {
                            if i > 0 {
                                assert((seq![tok] + tail)[i] == tail[i - 1]);
                            }
                        }
                    },
                    None => {},
                }
            }
        }
    }
}

/// Whatever a line of text parses to is well formed.
pub proof fn lemma_parse_line_wf(l: Seq<char>)
    ensures
        parse_line(l) matches Some(x) ==> line_wf(x),
{
    reveal_strlit(" = [");
    if is_prefix(l, "default_sched = "@) {
    } else if is_prefix(l, "default_mode = "@) {
    } else if is_prefix(l, "[scheds."@) {
    } else {
        if is_prefix(l, key_of(SchedMode::Auto) + " = ["@) {
            lemma_parse_args_wf(l.skip(key_of(SchedMode::Auto).len() as int + 4).drop_last());
        } else if is_prefix(l, key_of(SchedMode::Gaming) + " = ["@) {
            lemma_parse_args_wf(l.skip(key_of(SchedMode::Gaming).len() as int + 4).drop_last());
        } else if is_prefix(l, key_of(SchedMode::LowLatency) + " = ["@) {
            lemma_parse_args_wf(l.skip(key_of(SchedMode::LowLatency).len() as int + 4).drop_last());
        } else if is_prefix(l, key_of(SchedMode::PowerSave) + " = ["@) {
            lemma_parse_args_wf(l.skip(key_of(SchedMode::PowerSave).len() as int + 4).drop_last());
        } else if is_prefix(l, key_of(SchedMode::Server) + " = ["@) {
            lemma_parse_args_wf(l.skip(key_of(SchedMode::Server).len() as int + 4).drop_last());
        }
    }
}

/// Reading field lines preserves a well-formed record and its name.
pub proof fn lemma_parse_fields_wf(ls: Seq<Seq<char>>, acc: EntryV)
    requires
        crate::store::entry_wf(acc),
    ensures
        parse_fields_t(ls, acc) matches Some(r) ==> crate::store::entry_wf(r.0) && r.0.name
            == acc.name,
    decreases ls.len(),
{
    if ls.len() > 0 {
        lemma_parse_line_wf(ls[0]);
        match parse_line(ls[0]) {
            Some(LineV::Field(m, args)) => {
                if entry_mode_args(acc, m) is None {
                    crate::store::lemma_entry_with_args_name(acc, m, args);
                    lemma_parse_fields_wf(ls.skip(1), entry_with_args(acc, m, args));
                }
            },
            _ => {},
        }
    }
}

/// The records a document's tables parse to are well formed and uniquely
/// named.
pub proof fn lemma_parse_entries_wf(ls: Seq<Seq<char>>)
    ensures
        parse_entries_t(ls) matches Some(es) ==> {
            &&& forall|i: int| 0 <= i < es.len() ==> crate::store::entry_wf(#[trigger] es[i])
            &&& forall|i: int, j: int| 0 <= i < j < es.len() ==> es[i].name != es[j].name
        },
    decreases ls.len(),
{
    if ls.len() > 0 {
        lemma_parse_line_wf(ls[0]);
        match parse_line(ls[0]) {
            Some(LineV::Header(n)) => {
                lemma_parse_fields_rest(ls.skip(1), empty_entry(n));
                match parse_fields_t(ls.skip(1), empty_entry(n)) {
                    Some(r) => {
                        lemma_parse_fields_wf(ls.skip(1), empty_entry(n));
                        lemma_parse_entries_wf(r.1);
                        match parse_entries_t(r.1) {
                            Some(es) => {
                                if !contains_name(es, n) {
                                    let all = seq![r.0] + es;
                                    assert(all[0] == r.0);
                                    assert(forall|i: int| 1 <= i < all.len() ==> all[i] == es[i - 1]);
                                    assert forall|i: int, j: int|
                                        0 <= i < j < all.len() implies all[i].name != all[j].name by {
                                        if i == 0 {
                                            assert(all[j].name != n);
                                        }
                                    }
                                }
                            },
                            None => {},
                        }
                    },
                    None => {},
                }
            },
            _ => {},
        }
    }
}

/// The configuration a document parses to is well formed.
pub proof fn lemma_parse_document_wf(text: Seq<char>)
    ensures
        parse_document(text) matches Some(c) ==> c.wf(),
{
    if text.len() > 0 {
        let ls = nonblank(split_on(text, '\n'));
        if ls.len() > 0 {
            lemma_parse_line_wf(ls[0]);
            match parse_line(ls[0]) {
                Some(LineV::DefaultSched(n)) => {
                    if ls.len() >= 2 {
                        lemma_parse_entries_wf(ls.skip(2));
                    }
                },
                Some(LineV::DefaultMode(m)) => {
                    lemma_parse_entries_wf(ls.skip(1));
                },
                Some(LineV::Header(h)) => {
                    lemma_parse_entries_wf(ls);
                },
                _ => {},
            }
        }
    }
}


/// An owned parsed line.
pub enum LineE {
    /// `default_sched = "<name>"`
    DefaultSched(String),
    /// `default_mode = "<Mode>"`
    DefaultMode(SchedMode),
    /// `[scheds."<name>"]`
    Header(String),
    /// `<mode>_mode = ["<arg>", ..]`
    Field(SchedMode, Vec<String>),
}

impl View for LineE {
    type V = LineV;

    open spec fn view(&self) -> LineV {
        match self {
            LineE::DefaultSched(n) => LineV::DefaultSched(n@),
            LineE::DefaultMode(m) => LineV::DefaultMode(*m),
            LineE::Header(n) => LineV::Header(n@),
            LineE::Field(m, args) => LineV::Field(*m, args.deep_view()),
        }
    }
}

/// Reads a whole quoted storable string.
fn parse_quoted_exec(s: &str) -> (r: Option<String>)
    ensures
        match r {
            Some(t) => parse_quoted_all(s@) == Some(t@),
            None => parse_quoted_all(s@) is None,
        },
{
    let n = s.unicode_len();
    if n < 2 {
        return None;
    }
    if s.get_char(0) != '"' {
        return None;
    }
    if s.get_char(n - 1) != '"' {
        return None;
    }
    let mid = s.substring_char(1, n - 1);
    if crate::text::check_str_ok(mid) {
        Some(mid.to_owned())
    } else {
        None
    }
}

/// Reads a comma-separated list of quoted storable strings.
fn parse_args_exec(s: &str) -> (r: Option<Vec<String>>)
    ensures
        match r {
            Some(v) => parse_args(s@) == Some(v.deep_view()),
            None => parse_args(s@) is None,
        },
    decreases s@.len(),
{
    let n = s.unicode_len();
    if n == 0 {
        let v: Vec<String> = Vec::new();
        proof {
            assert(v.deep_view() =~~= Seq::<Seq<char>>::empty());
        }
        return Some(v);
    }
    if s.get_char(0) != '"' {
        return None;
    }
    let mut k: usize = 1;
    while k < n && s.get_char(k) != '"'
        invariant
            1 <= k <= n,
            n == s@.len(),
            forall|t: int| 1 <= t < k ==> s@[t] != '"',
        decreases n - k,
    {
        k = k + 1;
    }
    proof {
        lemma_find_char(s@.skip(1), '"');
        assert(forall|t: int| 0 <= t < s@.len() - 1 ==> #[trigger] s@.skip(1)[t] == s@[t + 1]);
    }
    if k == n {
        proof {
            assert(find_char(s@.skip(1), '"') == -1) by {
                if find_char(s@.skip(1), '"') >= 0 {
                    let f = find_char(s@.skip(1), '"');
                    assert(s@.skip(1)[f] == '"');
                    assert(s@[f + 1] == '"');
                }
            }
        }
        return None;
    }
    let ghost j = find_char(s@.skip(1), '"');
    proof {
        assert(s@[k as int] == '"');
        assert(s@.skip(1)[k as int - 1] == '"');
        assert(0 <= j <= k - 1);
        if j < k as int - 1 {
            assert(s@.skip(1)[j] == '"');
            assert(s@[j + 1] == '"');
        }
        assert(j == k as int - 1);
    }
    let tok_str = s.substring_char(1, k);
    proof {
        assert(tok_str@ == s@.subrange(1, j + 1));
    }
    if !crate::text::check_str_ok(tok_str) {
        return None;
    }
    let tok = tok_str.to_owned();
    let ghost rest = s@.skip(j + 2);
    proof {
        assert(forall|t: int| 0 <= t < rest.len() ==> #[trigger] rest[t] == s@[t + k + 1]);
    }
    if k + 1 == n {
        let mut v: Vec<String> = Vec::new();
        v.push(tok);
        proof {
            assert(rest.len() == 0);
            assert(v.deep_view() =~~= seq![s@.subrange(1, j + 1)]);
        }
        return Some(v);
    }
    if k + 2 < n && s.get_char(k + 1) == ',' && s.get_char(k + 2) == ' ' {
        proof {
            assert(rest.len() >= 2);
            assert(rest[0] == ',' && rest[1] == ' ');
        }
        let tail_str = s.substring_char(k + 3, n);
        proof {
            assert(tail_str@ =~= rest.skip(2));
        }
        match parse_args_exec(tail_str) {
            Some(mut tail) => {
                let ghost tail_dv = tail.deep_view();
                let mut v: Vec<String> = Vec::new();
                v.push(tok);
                v.append(&mut tail);
                proof {
                    assert(v@.len() == 1 + tail_dv.len());
                    assert forall|t: int| 0 <= t < v@.len() implies v.deep_view()[t] == (seq![
                        s@.subrange(1, j + 1),
                    ] + tail_dv)[t] by {
                        assert(v.deep_view()[t] == v@[t]@);
                        if t > 0 {
                            assert(v@[t]@ == tail_dv[t - 1]);
                        }
                    }
                    assert(v.deep_view() =~~= seq![s@.subrange(1, j + 1)] + tail_dv);
                }
                Some(v)
            },
            None => None,
        }
    } else {
        proof {
            if rest.len() >= 2 {
                assert(rest[0] == s@[k as int + 1] && rest[1] == s@[k as int + 2]);
            }
        }
        None
    }
}

/// Reads one line of the document.
fn parse_line_e(line: &str) -> (r: Option<LineE>)
    ensures
        match r {
            Some(l) => parse_line(line@) == Some(l@),
            None => parse_line(line@) is None,
        },
{
    proof {
        reveal_strlit(" = [");
        reveal_strlit("auto_mode");
        reveal_strlit("gaming_mode");
        reveal_strlit("lowlatency_mode");
        reveal_strlit("powersave_mode");
        reveal_strlit("server_mode");
        reveal_strlit("auto_mode = [");
        reveal_strlit("gaming_mode = [");
        reveal_strlit("lowlatency_mode = [");
        reveal_strlit("powersave_mode = [");
        reveal_strlit("server_mode = [");
        assert("auto_mode = ["@ =~= key_of(SchedMode::Auto) + " = ["@);
        assert("gaming_mode = ["@ =~= key_of(SchedMode::Gaming) + " = ["@);
        assert("lowlatency_mode = ["@ =~= key_of(SchedMode::LowLatency) + " = ["@);
        assert("powersave_mode = ["@ =~= key_of(SchedMode::PowerSave) + " = ["@);
        assert("server_mode = ["@ =~= key_of(SchedMode::Server) + " = ["@);
    }
    let n = line.unicode_len();
    if crate::text::has_prefix(line, "default_sched = ") {
        let pl = "default_sched = ".unicode_len();
        let rest = line.substring_char(pl, n);
        proof {
            assert(rest@ =~= line@.skip("default_sched = "@.len() as int));
        }
        match parse_quoted_exec(rest) {
            Some(t) => Some(LineE::DefaultSched(t)),
            None => None,
        }
    } else if crate::text::has_prefix(line, "default_mode = ") {
        let pl = "default_mode = ".unicode_len();
        let rest = line.substring_char(pl, n);
        proof {
            assert(rest@ =~= line@.skip("default_mode = "@.len() as int));
        }
        match parse_quoted_exec(rest) {
            Some(t) => match crate::modes::mode_from_word(t.as_str()) {
                Some(m) => Some(LineE::DefaultMode(m)),
                None => None,
            },
            None => None,
        }
    } else if crate::text::has_prefix(line, "[scheds.") {
        let pl = "[scheds.".unicode_len();
        if pl < n && line.get_char(n - 1) == ']' {
            let inner = line.substring_char(pl, n - 1);
            proof {
                let rest = line@.skip("[scheds."@.len() as int);
                assert(rest.len() >= 1 && rest.last() == ']');
                assert(inner@ =~= rest.drop_last());
            }
            let ni = inner.unicode_len();
            if ni >= 1 && inner.get_char(0) == '"' {
                match parse_quoted_exec(inner) {
                    Some(t) => Some(LineE::Header(t)),
                    None => None,
                }
            } else if ni >= 1 && crate::text::check_str_ok(inner) {
                Some(LineE::Header(inner.to_owned()))
            } else {
                None
            }
        } else {
            proof {
                let rest = line@.skip("[scheds."@.len() as int);
                if rest.len() >= 1 {
                    assert(rest.last() == line@[n - 1]);
                }
            }
            None
        }
    } else if crate::text::has_prefix(line, "auto_mode = [") {
        parse_field_exec(line, SchedMode::Auto, "auto_mode = [".unicode_len())
    } else if crate::text::has_prefix(line, "gaming_mode = [") {
        parse_field_exec(line, SchedMode::Gaming, "gaming_mode = [".unicode_len())
    } else if crate::text::has_prefix(line, "lowlatency_mode = [") {
        parse_field_exec(line, SchedMode::LowLatency, "lowlatency_mode = [".unicode_len())
    } else if crate::text::has_prefix(line, "powersave_mode = [") {
        parse_field_exec(line, SchedMode::PowerSave, "powersave_mode = [".unicode_len())
    } else if crate::text::has_prefix(line, "server_mode = [") {
        parse_field_exec(line, SchedMode::Server, "server_mode = [".unicode_len())
    } else {
        None
    }
}

/// Reads the bracketed argument list that ends a field line.
fn parse_field_exec(line: &str, m: SchedMode, pl: usize) -> (r: Option<LineE>)
    requires
        pl == key_of(m).len() + " = ["@.len(),
        pl <= line@.len(),
    ensures
        match r {
            Some(l) => parse_field_rest(line@, m) == Some(l@) && (l@ matches LineV::Field(m2, _)
                && m2 == m),
            None => parse_field_rest(line@, m) is None,
        },
{
    let n = line.unicode_len();
    if pl < n && line.get_char(n - 1) == ']' {
        let inner = line.substring_char(pl, n - 1);
        proof {
            let rest = line@.skip(key_of(m).len() + " = ["@.len() as int);
            assert(rest.len() >= 1 && rest.last() == ']');
            assert(inner@ =~= rest.drop_last());
        }
        match parse_args_exec(inner) {
            Some(v) => Some(LineE::Field(m, v)),
            None => None,
        }
    } else {
        proof {
            let rest = line@.skip(key_of(m).len() + " = ["@.len() as int);
            if rest.len() >= 1 {
                assert(rest.last() == line@[n - 1]);
            }
        }
        None
    }
}


/// Reads field lines from index `i` into `acc` until a header or the end.
fn parse_fields_e(lines: &Vec<String>, i: usize, acc: SchedEntry) -> (r: Option<(SchedEntry, usize)>)
    requires
        i <= lines@.len(),
    ensures
        match r {
            Some(p) => i <= p.1 <= lines@.len() && parse_fields_t(
                lines.deep_view().skip(i as int),
                acc@,
            ) == Some((p.0@, lines.deep_view().skip(p.1 as int))),
            None => parse_fields_t(lines.deep_view().skip(i as int), acc@) is None,
        },
    decreases lines@.len() - i,
{
    let ghost lv = lines.deep_view();
    proof {
        assert(lv.len() == lines@.len());
    }
    if i == lines.len() {
        proof {
            assert(lv.skip(i as int).len() == 0);
        }
        return Some((acc, i));
    }
    proof {
        assert(lv.skip(i as int)[0] == lv[i as int]);
        assert(lv[i as int] == lines@[i as int]@);
    }
    match parse_line_e(lines[i].as_str()) {
        Some(LineE::Field(m, args)) => {
            let dup = match m {
                SchedMode::Auto => acc.auto_mode.is_some(),
                SchedMode::Gaming => acc.gaming_mode.is_some(),
                SchedMode::LowLatency => acc.lowlatency_mode.is_some(),
                SchedMode::PowerSave => acc.powersave_mode.is_some(),
                SchedMode::Server => acc.server_mode.is_some(),
            };
            proof {
                assert(dup == (entry_mode_args(acc@, m) is Some));
            }
            if dup {
                return None;
            }
            let ghost args_dv = args.deep_view();
            let mut acc2 = acc;
            match m {
                SchedMode::Auto => {
                    acc2.auto_mode = Some(args);
                },
                SchedMode::Gaming => {
                    acc2.gaming_mode = Some(args);
                },
                SchedMode::LowLatency => {
                    acc2.lowlatency_mode = Some(args);
                },
                SchedMode::PowerSave => {
                    acc2.powersave_mode = Some(args);
                },
                SchedMode::Server => {
                    acc2.server_mode = Some(args);
                },
            }
            proof {
                assert(acc2@ =~~= entry_with_args(acc@, m, args_dv));
                assert(lv.skip(i as int).skip(1) =~~= lv.skip(i as int + 1));
            }
            parse_fields_e(lines, i + 1, acc2)
        },
        Some(LineE::Header(_)) => Some((acc, i)),
        _ => None,
    }
}

/// Reads the record tables from index `i` on.
fn parse_entries_e(lines: &Vec<String>, i: usize) -> (r: Option<Vec<SchedEntry>>)
    requires
        i <= lines@.len(),
    ensures
        match r {
            Some(es) => parse_entries_t(lines.deep_view().skip(i as int)) == Some(
                es@.map_values(|e: SchedEntry| e@),
            ),
            None => parse_entries_t(lines.deep_view().skip(i as int)) is None,
        },
    decreases lines@.len() - i,
{
    let ghost lv = lines.deep_view();
    proof {
        assert(lv.len() == lines@.len());
    }
    if i == lines.len() {
        let es: Vec<SchedEntry> = Vec::new();
        proof {
            assert(lv.skip(i as int).len() == 0);
            assert(es@.map_values(|e: SchedEntry| e@) =~~= Seq::<EntryV>::empty());
        }
        return Some(es);
    }
    proof {
        assert(lv.skip(i as int)[0] == lv[i as int]);
        assert(lv[i as int] == lines@[i as int]@);
    }
    match parse_line_e(lines[i].as_str()) {
        Some(LineE::Header(n)) => {
            let ghost nv = n@;
            let acc = SchedEntry {
                name: n,
                auto_mode: None,
                gaming_mode: None,
                lowlatency_mode: None,
                powersave_mode: None,
                server_mode: None,
            };
            proof {
                assert(acc@ =~~= empty_entry(nv));
                assert(lv.skip(i as int).skip(1) =~~= lv.skip(i as int + 1));
            }
            match parse_fields_e(lines, i + 1, acc) {
                Some((ent, j)) => {
                    proof {
                        lemma_parse_fields_wf(lv.skip(i as int + 1), empty_entry(nv));
                        assert(ent@.name == nv);
                    }
                    match parse_entries_e(lines, j) {
                        Some(mut es) => {
                            let ghost es_v = es@.map_values(|e: SchedEntry| e@);
                            let ne = es.len();
                            let mut k: usize = 0;
                            proof {
                                assert(es_v.len() == es@.len());
                                assert(parse_entries_t(lv.skip(i as int)) == (if contains_name(
                                    es_v,
                                    nv,
                                ) {
                                    None
                                } else {
                                    Some(seq![ent@] + es_v)
                                }));
                            }
                            while k < ne
                                invariant
                                    k <= ne,
                                    ne == es@.len(),
                                    lv == lines.deep_view(),
                                    es_v == es@.map_values(|e: SchedEntry| e@),
                                    es_v.len() == ne,
                                    ent@.name == nv,
                                    parse_entries_t(lv.skip(i as int)) == (if contains_name(
                                        es_v,
                                        nv,
                                    ) {
                                        None
                                    } else {
                                        Some(seq![ent@] + es_v)
                                    }),
                                    forall|t: int| 0 <= t < k ==> #[trigger] es_v[t].name != nv,
                                decreases ne - k,
                            {
                                proof {
                                    assert(es_v[k as int] == es@[k as int]@);
                                }
                                if crate::text::str_eq(es[k].name.as_str(), ent.name.as_str()) {
                                    proof {
                                        assert(es@[k as int].name@ == ent.name@);
                                        assert(es_v[k as int].name == es@[k as int]@.name);
                                        assert(es_v[k as int].name == nv);
                                        assert(contains_name(es_v, nv));
                                    }
                                    return None;
                                }
                                k = k + 1;
                            }
                            proof {
                                assert(!contains_name(es_v, nv));
                            }
                            es.insert(0, ent);
                            proof {
                                assert(es@.map_values(|e: SchedEntry| e@) =~~= seq![ent@] + es_v);
                            }
                            Some(es)
                        },
                        None => None,
                    }
                },
                None => None,
            }
        },
        _ => None,
    }
}

/// Reads a whole document into a configuration.  The empty document and
/// any document that is not exactly in this format are refused as a
/// configuration error; a well-formed document always yields a well-formed
/// configuration.
pub fn parse_config_document(text: &str) -> (r: Result<Config, crate::errors::Error>)
    ensures
        match r {
            Ok(c) => parse_document(text@) == Some(c@) && c.wf(),
            Err(e) => e == crate::errors::Error::ConfigIo && parse_document(text@) is None,
        },
{
    let n = text.unicode_len();
    if n == 0 {
        return Err(crate::errors::Error::ConfigIo);
    }
    let raw = crate::text::split_char(text, '\n');
    let mut lines: Vec<String> = Vec::new();
    let nr = raw.len();
    let mut i: usize = 0;
    proof {
        assert(raw.deep_view().len() == raw@.len());
        assert(lines.deep_view() =~~= nonblank(raw.deep_view().take(0)));
    }
    while i < nr
        invariant
            i <= nr,
            nr == raw@.len(),
            raw.deep_view().len() == nr,
            lines.deep_view() == nonblank(raw.deep_view().take(i as int)),
        decreases nr - i,
    {
        let ghost rv = raw.deep_view();
        proof {
            assert(rv.take(i as int + 1).drop_last() =~~= rv.take(i as int));
            assert(rv.take(i as int + 1).last() == rv[i as int]);
            assert(rv[i as int] == raw@[i as int]@);
        }
        if raw[i].as_str().unicode_len() > 0 {
            lines.push(raw[i].clone());
            proof {
                assert(lines.deep_view() =~~= nonblank(rv.take(i as int + 1)));
            }
        } else {
            proof {
                assert(lines.deep_view() =~~= nonblank(rv.take(i as int + 1)));
            }
        }
        i = i + 1;
    }
    proof {
        assert(raw.deep_view().take(nr as int) =~~= raw.deep_view());
        assert(raw.deep_view() == split_on(text@, '\n'));
        lemma_parse_document_wf(text@);
    }
    let ghost lv = lines.deep_view();
    proof {
        assert(lv.len() == lines@.len());
        assert(lv == nonblank(split_on(text@, '\n')));
        assert(parse_document(text@) == parse_doc_texts(lv));
    }
    if lines.len() == 0 {
        let c = Config { default_sched: None, default_mode: None, scheds: Vec::new() };
        proof {
            assert(c@.scheds =~~= Seq::<EntryV>::empty());
            assert(parse_doc_texts(lv) == Some(c@));
            assert(parse_document(text@) == Some(c@));
            assert(c@.wf());
        }
        return Ok(c);
    }
    proof {
        assert(lv[0] == lines@[0]@);
    }
    match parse_line_e(lines[0].as_str()) {
        Some(LineE::DefaultSched(nm)) => {
            if lines.len() >= 2 {
                proof {
                    assert(lv[1] == lines@[1]@);
                }
                match parse_line_e(lines[1].as_str()) {
                    Some(LineE::DefaultMode(m)) => match parse_entries_e(&lines, 2) {
                        Some(es) => {
                            let c = Config {
                                default_sched: Some(nm),
                                default_mode: Some(m),
                                scheds: es,
                            };
                            proof {
                                assert(parse_doc_texts(lv) == Some(c@));
                                assert(parse_document(text@) == Some(c@));
                                assert(c@.wf());
                            }
                            Ok(c)
                        },
                        None => {
                            proof {
                                assert(parse_doc_texts(lv) is None);
                            }
                            Err(crate::errors::Error::ConfigIo)
                        },
                    },
                    _ => {
                        proof {
                            assert(parse_doc_texts(lv) is None);
                        }
                        Err(crate::errors::Error::ConfigIo)
                    },
                }
            } else {
                proof {
                    assert(parse_doc_texts(lv) is None);
                }
                Err(crate::errors::Error::ConfigIo)
            }
        },
        Some(LineE::DefaultMode(m)) => match parse_entries_e(&lines, 1) {
            Some(es) => {
                let c = Config { default_sched: None, default_mode: Some(m), scheds: es };
                proof {
                    assert(parse_doc_texts(lv) == Some(c@));
                    assert(parse_document(text@) == Some(c@));
                    assert(c@.wf());
                }
                Ok(c)
            },
            None => {
                proof {
                    assert(parse_doc_texts(lv) is None);
                }
                Err(crate::errors::Error::ConfigIo)
            },
        },
        Some(LineE::Header(_)) => match parse_entries_e(&lines, 0) {
            Some(es) => {
                let c = Config { default_sched: None, default_mode: None, scheds: es };
                proof {
                    assert(lv.skip(0) =~~= lv);
                    assert(parse_doc_texts(lv) == Some(c@));
                    assert(parse_document(text@) == Some(c@));
                    assert(c@.wf());
                }
                Ok(c)
            },
            None => {
                proof {
                    assert(lv.skip(0) =~~= lv);
                    assert(parse_doc_texts(lv) is None);
                }
                Err(crate::errors::Error::ConfigIo)
            },
        },
        _ => {
            proof {
                assert(parse_doc_texts(lv) is None);
            }
            Err(crate::errors::Error::ConfigIo)
        },
    }
}

/// Loads a configuration from a document read off disk, or falls back to
/// the built-in default exactly when there was no document to read.  An
/// unreadable (malformed) document is a configuration error, never
/// silently replaced by the default.
pub fn load_or_default(contents: Option<&str>) -> (r: Result<Config, crate::errors::Error>)
    ensures
        match contents {
            None => r matches Ok(c) && c@ == (ConfigV {
                default_sched: None,
                default_mode: Some(SchedMode::Auto),
                scheds: Seq::<EntryV>::empty(),
            }) && c.wf(),
            Some(s) => match r {
                Ok(c) => parse_document(s@) == Some(c@) && c.wf(),
                Err(e) => e == crate::errors::Error::ConfigIo && parse_document(s@) is None,
            },
        },
{
    match contents {
        None => Ok(Config::default_config()),
        Some(text) => parse_config_document(text),
    }
}


/// No character of `s` is a line break.
pub open spec fn no_nl(s: Seq<char>) -> bool {
    forall|i: int| 0 <= i < s.len() ==> s[i] != '\n'
}

/// Concatenation keeps freedom from line breaks.
pub proof fn lemma_no_nl_append(a: Seq<char>, b: Seq<char>)
    requires
        no_nl(a),
        no_nl(b),
    ensures
        no_nl(a + b),
{
    assert forall|i: int| 0 <= i < (a + b).len() implies (a + b)[i] != '\n' by {
        if i < a.len() {
            assert((a + b)[i] == a[i]);
        } else {
            assert((a + b)[i] == b[i - a.len()]);
        }
    }
}

/// A quoted storable string holds no line break.
pub proof fn lemma_quoted_no_nl(n: Seq<char>)
    requires
        str_ok(n),
    ensures
        no_nl(quoted(n)),
{
    assert forall|i: int| 0 <= i < quoted(n).len() implies quoted(n)[i] != '\n' by {
        if 1 <= i <= n.len() {
            assert(quoted(n)[i] == n[i - 1]);
            assert(crate::text::char_ok(n[i - 1]));
        }
    }
}

/// A rendered argument list holds no line break.
pub proof fn lemma_render_args_no_nl(args: Seq<Seq<char>>)
    requires
        strs_ok(args),
    ensures
        no_nl(render_args(args)),
    decreases args.len(),
{
    if args.len() == 0 {
    } else if args.len() == 1 {
        lemma_quoted_no_nl(args[0]);
    } else {
        lemma_quoted_no_nl(args[0]);
        assert(forall|i: int| 0 <= i < args.skip(1).len() ==> str_ok(#[trigger] args.skip(1)[i]));
        lemma_render_args_no_nl(args.skip(1));
        reveal_strlit(", ");
        assert(no_nl(", "@));
        lemma_no_nl_append(quoted(args[0]), ", "@);
        lemma_no_nl_append(quoted(args[0]) + ", "@, render_args(args.skip(1)));
    }
}

/// A rendered line is never empty and holds no line break.
pub proof fn lemma_render_line_clean(l: LineV)
    requires
        line_wf(l),
    ensures
        render_line(l).len() > 0,
        no_nl(render_line(l)),
{
    reveal_strlit("default_sched = ");
    reveal_strlit("default_mode = ");
    reveal_strlit("[scheds.");
    reveal_strlit("]");
    reveal_strlit(" = [");
    reveal_strlit("auto_mode");
    reveal_strlit("gaming_mode");
    reveal_strlit("lowlatency_mode");
    reveal_strlit("powersave_mode");
    reveal_strlit("server_mode");
    reveal_strlit("Auto");
    reveal_strlit("Gaming");
    reveal_strlit("PowerSave");
    reveal_strlit("LowLatency");
    reveal_strlit("Server");
    match l {
        LineV::DefaultSched(n) => {
            lemma_quoted_no_nl(n);
            assert(no_nl("default_sched = "@));
            lemma_no_nl_append("default_sched = "@, quoted(n));
        },
        LineV::DefaultMode(m) => {
            crate::modes::lemma_mode_word_ok(m);
            lemma_quoted_no_nl(crate::modes::word_of(m));
            assert(no_nl("default_mode = "@));
            lemma_no_nl_append("default_mode = "@, quoted(crate::modes::word_of(m)));
        },
        LineV::Header(n) => {
            lemma_quoted_no_nl(n);
            assert(no_nl("[scheds."@));
            assert(no_nl("]"@));
            lemma_no_nl_append("[scheds."@, quoted(n));
            lemma_no_nl_append("[scheds."@ + quoted(n), "]"@);
        },
        LineV::Field(m, args) => {
            lemma_render_args_no_nl(args);
            assert(no_nl(key_of(m)));
            assert(no_nl(" = ["@));
            assert(no_nl("]"@));
            lemma_no_nl_append(key_of(m), " = ["@);
            lemma_no_nl_append(key_of(m) + " = ["@, render_args(args));
            lemma_no_nl_append(key_of(m) + " = ["@ + render_args(args), "]"@);
            assert(key_of(m).len() > 0);
        },
    }
}

/// A string without the separator splits as one piece.
pub proof fn lemma_split_on_nosep(a: Seq<char>, sep: char)
    requires
        forall|i: int| 0 <= i < a.len() ==> a[i] != sep,
    ensures
        split_on(a, sep) == seq![a],
    decreases a.len(),
{
    if a.len() == 0 {
        assert(split_on(a, sep) =~~= seq![a]);
    } else {
        lemma_split_on_nosep(a.drop_last(), sep);
        assert(a.last() != sep);
        assert(split_on(a, sep) =~~= seq![a.drop_last().push(a.last())]);
        assert(a.drop_last().push(a.last()) =~= a);
        assert(split_on(a, sep) =~~= seq![a]);
    }
}

/// Splitting after a separator-free prefix and one separator yields that
/// prefix as the first piece.
pub proof fn lemma_split_on_concat(a: Seq<char>, b: Seq<char>, sep: char)
    requires
        forall|i: int| 0 <= i < a.len() ==> a[i] != sep,
    ensures
        split_on(a + seq![sep] + b, sep) == seq![a] + split_on(b, sep),
    decreases b.len(),
{
    let s = a + seq![sep] + b;
    if b.len() == 0 {
        assert(s =~= a + seq![sep]);
        assert(s.drop_last() =~= a);
        assert(s.last() == sep);
        lemma_split_on_nosep(a, sep);
        assert(split_on(s, sep) =~~= seq![a] + split_on(b, sep));
    } else {
        lemma_split_on_concat(a, b.drop_last(), sep);
        assert(s.drop_last() =~= a + seq![sep] + b.drop_last());
        assert(s.last() == b.last());
        let rest = split_on(a + seq![sep] + b.drop_last(), sep);
        crate::text::lemma_split_on_len(b.drop_last(), sep);
        if b.last() == sep {
            assert(split_on(s, sep) =~~= (seq![a] + split_on(b.drop_last(), sep)) + seq![
                Seq::<char>::empty(),
            ]);
            assert(split_on(b, sep) =~~= split_on(b.drop_last(), sep) + seq![Seq::<char>::empty()]);
            assert(split_on(s, sep) =~~= seq![a] + split_on(b, sep));
        } else {
            let br = split_on(b.drop_last(), sep);
            assert(rest == seq![a] + br);
            assert(rest.len() == 1 + br.len());
            assert(rest.last() == br.last());
            assert(split_on(s, sep) =~~= rest.update(rest.len() - 1, rest.last().push(b.last())));
            assert(split_on(b, sep) =~~= br.update(br.len() - 1, br.last().push(b.last())));
            assert(split_on(s, sep) =~~= seq![a] + split_on(b, sep));
        }
    }
}

/// A list of non-empty lines is untouched by the blank-line filter.
pub proof fn lemma_nonblank_id(ls: Seq<Seq<char>>)
    requires
        forall|i: int| 0 <= i < ls.len() ==> #[trigger] ls[i].len() > 0,
    ensures
        nonblank(ls) == ls,
    decreases ls.len(),
{
    if ls.len() > 0 {
        lemma_nonblank_id(ls.drop_last());
        assert(ls.last().len() > 0);
        assert(nonblank(ls) =~~= ls.drop_last() + seq![ls.last()]);
        assert(ls.drop_last() + seq![ls.last()] =~~= ls);
    } else {
        assert(nonblank(ls) =~~= ls);
    }
}

/// A trailing empty line is dropped by the blank-line filter.
pub proof fn lemma_nonblank_trailing(ls: Seq<Seq<char>>)
    ensures
        nonblank(ls + seq![Seq::<char>::empty()]) == nonblank(ls),
{
    let e = ls + seq![Seq::<char>::empty()];
    assert(e.drop_last() =~~= ls);
    assert(e.last().len() == 0);
    assert(nonblank(e) =~~= nonblank(ls));
}

/// Splitting a rendered document at line breaks gives back its lines,
/// with one trailing empty piece for the final line break.
pub proof fn lemma_split_text(ls: Seq<LineV>)
    requires
        forall|i: int| 0 <= i < ls.len() ==> line_wf(#[trigger] ls[i]),
    ensures
        split_on(text_of(ls), '\n') == ls.map_values(|l: LineV| render_line(l)) + seq![
            Seq::<char>::empty(),
        ],
    decreases ls.len(),
{
    if ls.len() == 0 {
        assert(split_on(text_of(ls), '\n') =~~= seq![Seq::<char>::empty()]);
        assert(ls.map_values(|l: LineV| render_line(l)) + seq![Seq::<char>::empty()] =~~= seq![
            Seq::<char>::empty(),
        ]);
    } else {
        assert(forall|i: int|
            0 <= i < ls.skip(1).len() ==> line_wf(#[trigger] ls.skip(1)[i]) && ls.skip(1)[i]
                == ls[i + 1]);
        lemma_split_text(ls.skip(1));
        lemma_render_line_clean(ls[0]);
        assert(text_of(ls) =~= render_line(ls[0]) + seq!['\n'] + text_of(ls.skip(1)));
        lemma_split_on_concat(render_line(ls[0]), text_of(ls.skip(1)), '\n');
        assert(split_on(text_of(ls), '\n') =~~= seq![render_line(ls[0])] + (ls.skip(1).map_values(
            |l: LineV| render_line(l),
        ) + seq![Seq::<char>::empty()]));
        assert(ls.map_values(|l: LineV| render_line(l)) =~~= seq![render_line(ls[0])] + ls.skip(
            1,
        ).map_values(|l: LineV| render_line(l)));
        assert(split_on(text_of(ls), '\n') =~~= ls.map_values(|l: LineV| render_line(l)) + seq![
            Seq::<char>::empty(),
        ]);
    }
}

/// The non-blank pieces of a rendered document are exactly its lines.
pub proof fn lemma_document_lines(ls: Seq<LineV>)
    requires
        forall|i: int| 0 <= i < ls.len() ==> line_wf(#[trigger] ls[i]),
    ensures
        nonblank(split_on(text_of(ls), '\n')) == ls.map_values(|l: LineV| render_line(l)),
{
    lemma_split_text(ls);
    lemma_nonblank_trailing(ls.map_values(|l: LineV| render_line(l)));
    let rendered = ls.map_values(|l: LineV| render_line(l));
    assert forall|i: int| 0 <= i < rendered.len() implies #[trigger] rendered[i].len() > 0 by {
        assert(rendered[i] == render_line(ls[i]));
        lemma_render_line_clean(ls[i]);
    }
    lemma_nonblank_id(rendered);
}


/// A quoted storable string reads back exactly.
pub proof fn lemma_parse_quoted_roundtrip(n: Seq<char>)
    requires
        str_ok(n),
    ensures
        parse_quoted_all(quoted(n)) == Some(n),
{
    let q = quoted(n);
    assert(q.len() == n.len() + 2);
    assert(q[0] == '"');
    assert(q.last() == '"');
    assert(q.subrange(1, q.len() - 1) =~= n);
}

/// In a storable string followed by a closing quote, the first quote is
/// that closing quote.
pub proof fn lemma_find_closing_quote(t: Seq<char>, tail: Seq<char>)
    requires
        str_ok(t),
        tail.len() >= 1,
        tail[0] == '"',
    ensures
        find_char(t + tail, '"') == t.len(),
{
    let s = t + tail;
    lemma_find_char(s, '"');
    assert(s[t.len() as int] == '"');
    let f = find_char(s, '"');
    assert(0 <= f <= t.len());
    if f < t.len() {
        assert(s[f] == t[f]);
        assert(crate::text::char_ok(t[f]));
    }
}

/// A rendered argument list reads back exactly.
pub proof fn lemma_parse_args_roundtrip(args: Seq<Seq<char>>)
    requires
        strs_ok(args),
    ensures
        parse_args(render_args(args)) == Some(args),
    decreases args.len(),
{
    reveal_strlit(", ");
    if args.len() == 0 {
        assert(parse_args(render_args(args)) =~~= Some(args));
    } else if args.len() == 1 {
        let t = args[0];
        let s = render_args(args);
        assert(s =~= quoted(t));
        assert(s[0] == '"');
        assert(s.skip(1) =~= t + seq!['"']);
        lemma_find_closing_quote(t, seq!['"']);
        let j = find_char(s.skip(1), '"');
        assert(j == t.len());
        assert(s.subrange(1, j + 1) =~= t);
        assert(s.skip(j + 2).len() == 0);
        assert(parse_args(s) =~~= Some(seq![t]));
        assert(seq![t] =~~= args);
    } else {
        let t = args[0];
        let rest = args.skip(1);
        assert(forall|i: int| 0 <= i < rest.len() ==> str_ok(#[trigger] rest[i]));
        lemma_parse_args_roundtrip(rest);
        let s = render_args(args);
        assert(s =~= quoted(t) + ", "@ + render_args(rest));
        assert(s[0] == '"');
        assert(s.skip(1) =~= t + (seq!['"'] + ", "@ + render_args(rest)));
        lemma_find_closing_quote(t, seq!['"'] + ", "@ + render_args(rest));
        let j = find_char(s.skip(1), '"');
        assert(j == t.len());
        assert(s.subrange(1, j + 1) =~= t);
        let r = s.skip(j + 2);
        assert(r =~= ", "@ + render_args(rest));
        assert(r.len() >= 2);
        assert(r[0] == ',' && r[1] == ' ');
        assert(r.skip(2) =~= render_args(rest));
        assert(parse_args(s) =~~= Some(seq![t] + rest));
        assert(seq![t] + rest =~~= args);
    }
}

/// A rendered line reads back exactly.
pub proof fn lemma_parse_line_roundtrip(l: LineV)
    requires
        line_wf(l),
    ensures
        parse_line(render_line(l)) == Some(l),
{
    reveal_strlit("default_sched = ");
    reveal_strlit("default_mode = ");
    reveal_strlit("[scheds.");
    reveal_strlit("]");
    reveal_strlit(" = [");
    reveal_strlit("auto_mode");
    reveal_strlit("gaming_mode");
    reveal_strlit("lowlatency_mode");
    reveal_strlit("powersave_mode");
    reveal_strlit("server_mode");
    let s = render_line(l);
    match l {
        LineV::DefaultSched(n) => {
            let p = "default_sched = "@;
            assert(s =~= p + quoted(n));
            assert(s.subrange(0, p.len() as int) =~= p);
            assert(is_prefix(s, p));
            assert(s.skip(p.len() as int) =~= quoted(n));
            lemma_parse_quoted_roundtrip(n);
        },
        LineV::DefaultMode(m) => {
            let w = crate::modes::word_of(m);
            crate::modes::lemma_mode_word_ok(m);
            let p = "default_mode = "@;
            assert(s =~= p + quoted(w));
            assert(s[8] == 'm');
            assert(!is_prefix(s, "default_sched = "@)) by {
                if is_prefix(s, "default_sched = "@) {
                    assert(s.subrange(0, 16)[8] == 's');
                }
            }
            assert(s.subrange(0, p.len() as int) =~= p);
            assert(is_prefix(s, p));
            assert(s.skip(p.len() as int) =~= quoted(w));
            lemma_parse_quoted_roundtrip(w);
            crate::modes::lemma_mode_word_roundtrip(m);
        },
        LineV::Header(n) => {
            let p = "[scheds."@;
            assert(s =~= p + quoted(n) + "]"@);
            assert(s[0] == '[');
            assert(!is_prefix(s, "default_sched = "@)) by {
                if is_prefix(s, "default_sched = "@) {
                    assert(s.subrange(0, 16)[0] == 'd');
                }
            }
            assert(!is_prefix(s, "default_mode = "@)) by {
                if is_prefix(s, "default_mode = "@) {
                    assert(s.subrange(0, 15)[0] == 'd');
                }
            }
            assert(s.subrange(0, p.len() as int) =~= p);
            assert(is_prefix(s, p));
            let rest = s.skip(p.len() as int);
            assert(rest =~= quoted(n) + "]"@);
            assert(rest.len() >= 1 && rest.last() == ']');
            assert(rest.drop_last() =~= quoted(n));
            lemma_parse_quoted_roundtrip(n);
        },
        LineV::Field(m, args) => {
            let k = key_of(m);
            let p = k + " = ["@;
            assert(s =~= p + render_args(args) + "]"@);
            assert(s[0] == k[0]);
            lemma_parse_args_roundtrip(args);
            assert(!is_prefix(s, "default_sched = "@)) by {
                if is_prefix(s, "default_sched = "@) {
                    assert(s.subrange(0, 16)[0] == 'd');
                    assert(match m {
                        SchedMode::Auto => k[0] == 'a',
                        SchedMode::Gaming => k[0] == 'g',
                        SchedMode::LowLatency => k[0] == 'l',
                        SchedMode::PowerSave => k[0] == 'p',
                        SchedMode::Server => k[0] == 's',
                    });
                }
            }
            assert(!is_prefix(s, "default_mode = "@)) by {
                if is_prefix(s, "default_mode = "@) {
                    assert(s.subrange(0, 15)[0] == 'd');
                    assert(match m {
                        SchedMode::Auto => k[0] == 'a',
                        SchedMode::Gaming => k[0] == 'g',
                        SchedMode::LowLatency => k[0] == 'l',
                        SchedMode::PowerSave => k[0] == 'p',
                        SchedMode::Server => k[0] == 's',
                    });
                }
            }
            assert(!is_prefix(s, "[scheds."@)) by {
                if is_prefix(s, "[scheds."@) {
                    assert(s.subrange(0, 8)[0] == '[');
                    assert(match m {
                        SchedMode::Auto => k[0] == 'a',
                        SchedMode::Gaming => k[0] == 'g',
                        SchedMode::LowLatency => k[0] == 'l',
                        SchedMode::PowerSave => k[0] == 'p',
                        SchedMode::Server => k[0] == 's',
                    });
                }
            }
            assert(s.subrange(0, p.len() as int) =~= p);
            assert(is_prefix(s, p));
            lemma_field_dispatch(m, s);
            let rest = s.skip(k.len() + " = ["@.len() as int);
            assert(rest =~= render_args(args) + "]"@);
            assert(rest.len() >= 1 && rest.last() == ']');
            assert(rest.drop_last() =~= render_args(args));
        },
    }
}

/// A line that begins with one mode's field key begins with no other
/// mode's field key.
proof fn lemma_field_dispatch(m: SchedMode, s: Seq<char>)
    requires
        is_prefix(s, key_of(m) + " = ["@),
    ensures
        parse_field_line(s) == parse_field_rest(s, m),
{
    reveal_strlit(" = [");
    reveal_strlit("auto_mode");
    reveal_strlit("gaming_mode");
    reveal_strlit("lowlatency_mode");
    reveal_strlit("powersave_mode");
    reveal_strlit("server_mode");
    let ka = key_of(SchedMode::Auto) + " = ["@;
    let kg = key_of(SchedMode::Gaming) + " = ["@;
    let kl = key_of(SchedMode::LowLatency) + " = ["@;
    let kp = key_of(SchedMode::PowerSave) + " = ["@;
    let ks = key_of(SchedMode::Server) + " = ["@;
    assert(s.subrange(0, (key_of(m) + " = ["@).len() as int) == key_of(m) + " = ["@);
    assert(s[0] == (key_of(m) + " = ["@)[0]);
    match m {
        SchedMode::Auto => {
            assert(s[0] == 'a');
        },
        SchedMode::Gaming => {
            assert(s[0] == 'g');
            assert(!is_prefix(s, ka)) by {
                if is_prefix(s, ka) {
                    assert(s.subrange(0, ka.len() as int)[0] == 'a');
                }
            }
        },
        SchedMode::LowLatency => {
            assert(s[0] == 'l');
            assert(!is_prefix(s, ka)) by {
                if is_prefix(s, ka) {
                    assert(s.subrange(0, ka.len() as int)[0] == 'a');
                }
            }
            assert(!is_prefix(s, kg)) by {
                if is_prefix(s, kg) {
                    assert(s.subrange(0, kg.len() as int)[0] == 'g');
                }
            }
        },
        SchedMode::PowerSave => {
            assert(s[0] == 'p');
            assert(!is_prefix(s, ka)) by {
                if is_prefix(s, ka) {
                    assert(s.subrange(0, ka.len() as int)[0] == 'a');
                }
            }
            assert(!is_prefix(s, kg)) by {
                if is_prefix(s, kg) {
                    assert(s.subrange(0, kg.len() as int)[0] == 'g');
                }
            }
            assert(!is_prefix(s, kl)) by {
                if is_prefix(s, kl) {
                    assert(s.subrange(0, kl.len() as int)[0] == 'l');
                }
            }
        },
        SchedMode::Server => {
            assert(s[0] == 's');
            assert(!is_prefix(s, ka)) by {
                if is_prefix(s, ka) {
                    assert(s.subrange(0, ka.len() as int)[0] == 'a');
                }
            }
            assert(!is_prefix(s, kg)) by {
                if is_prefix(s, kg) {
                    assert(s.subrange(0, kg.len() as int)[0] == 'g');
                }
            }
            assert(!is_prefix(s, kl)) by {
                if is_prefix(s, kl) {
                    assert(s.subrange(0, kl.len() as int)[0] == 'l');
                }
            }
            assert(!is_prefix(s, kp)) by {
                if is_prefix(s, kp) {
                    assert(s.subrange(0, kp.len() as int)[0] == 'p');
                }
            }
        },
    }
}


/// One field line at the front of the line list stores its argument set
/// into the record being read.
proof fn lemma_parse_fields_step(m: SchedMode, args: Seq<Seq<char>>, tail: Seq<Seq<char>>, acc: EntryV)
    requires
        entry_mode_args(acc, m) is None,
        strs_ok(args),
    ensures
        parse_fields_t(seq![render_line(LineV::Field(m, args))] + tail, acc) == parse_fields_t(
            tail,
            entry_with_args(acc, m, args),
        ),
{
    let ls = seq![render_line(LineV::Field(m, args))] + tail;
    lemma_parse_line_roundtrip(LineV::Field(m, args));
    assert(ls[0] == render_line(LineV::Field(m, args)));
    assert(ls.skip(1) =~~= tail);
}

/// Rendering distributes over concatenation of line lists, line by line.
proof fn lemma_map_render_append(a: Seq<LineV>, b: Seq<LineV>)
    ensures
        (a + b).map_values(|l: LineV| render_line(l)) == a.map_values(|l: LineV| render_line(l))
            + b.map_values(|l: LineV| render_line(l)),
{
    assert((a + b).map_values(|l: LineV| render_line(l)) =~~= a.map_values(
        |l: LineV| render_line(l),
    ) + b.map_values(|l: LineV| render_line(l)));
}

/// The rendered text of one optional field line.
spec fn opt_text(m: SchedMode, args: Option<Seq<Seq<char>>>) -> Seq<Seq<char>> {
    opt_field_line(m, args).map_values(|l: LineV| render_line(l))
}

/// The record as read after the first `k` of the five field steps.
spec fn acc_of(e: EntryV, k: int) -> EntryV
    decreases k,
{
    if k <= 0 {
        empty_entry(e.name)
    } else {
        let prev = acc_of(e, k - 1);
        let m = mode_at(k);
        match entry_mode_args(e, m) {
            Some(a) => entry_with_args(prev, m, a),
            None => prev,
        }
    }
}

/// The mode whose field stands at position `k` of the fixed field order.
spec fn mode_at(k: int) -> SchedMode {
    if k == 1 {
        SchedMode::Auto
    } else if k == 2 {
        SchedMode::Gaming
    } else if k == 3 {
        SchedMode::LowLatency
    } else if k == 4 {
        SchedMode::PowerSave
    } else {
        SchedMode::Server
    }
}

/// The line texts still to read after the first `k` field steps.
spec fn tail_of(e: EntryV, rest: Seq<Seq<char>>, k: int) -> Seq<Seq<char>>
    decreases 5 - k,
{
    if k >= 5 {
        rest
    } else {
        opt_text(mode_at(k + 1), entry_mode_args(e, mode_at(k + 1))) + tail_of(e, rest, k + 1)
    }
}

/// One field step: reading the field texts at step `k` extends the record.
proof fn lemma_fields_one_step(e: EntryV, rest: Seq<Seq<char>>, k: int)
    requires
        1 <= k <= 5,
        crate::store::entry_wf(e),
        forall|t: int| k <= t <= 5 ==> entry_mode_args(acc_of(e, k - 1), #[trigger] mode_at(t))
            is None,
    ensures
        parse_fields_t(tail_of(e, rest, k - 1), acc_of(e, k - 1)) == parse_fields_t(
            tail_of(e, rest, k),
            acc_of(e, k),
        ),
{
    let m = mode_at(k);
    let prev = acc_of(e, k - 1);
    let t = opt_text(m, entry_mode_args(e, m));
    match entry_mode_args(e, m) {
        Some(a) => {
            assert(strs_ok(a)) by {
                match m {
                    SchedMode::Auto => {},
                    SchedMode::Gaming => {},
                    SchedMode::LowLatency => {},
                    SchedMode::PowerSave => {},
                    SchedMode::Server => {},
                }
            }
            lemma_parse_fields_step(m, a, tail_of(e, rest, k), prev);
            assert(t =~~= seq![render_line(LineV::Field(m, a))]);
        },
        None => {
            assert(t + tail_of(e, rest, k) =~~= tail_of(e, rest, k));
        },
    }
}

/// After all five steps the record read is the record rendered.
proof fn lemma_acc_complete(e: EntryV)
    ensures
        acc_of(e, 5) == e,
        forall|k: int, t: int|
            0 <= k < t <= 5 ==> #[trigger] entry_mode_args(acc_of(e, k), mode_at(t)) is None,
{
    assert forall|k: int, t: int|
        0 <= k < t <= 5 implies #[trigger] entry_mode_args(acc_of(e, k), mode_at(t)) is None by {
        lemma_acc_partial(e, k, t);
    }
    assert(acc_of(e, 0) == empty_entry(e.name));
    assert(acc_of(e, 1) == (match e.auto_mode {
        Some(a) => entry_with_args(acc_of(e, 0), SchedMode::Auto, a),
        None => acc_of(e, 0),
    }));
    assert(acc_of(e, 2) == (match e.gaming_mode {
        Some(a) => entry_with_args(acc_of(e, 1), SchedMode::Gaming, a),
        None => acc_of(e, 1),
    }));
    assert(acc_of(e, 3) == (match e.lowlatency_mode {
        Some(a) => entry_with_args(acc_of(e, 2), SchedMode::LowLatency, a),
        None => acc_of(e, 2),
    }));
    assert(acc_of(e, 4) == (match e.powersave_mode {
        Some(a) => entry_with_args(acc_of(e, 3), SchedMode::PowerSave, a),
        None => acc_of(e, 3),
    }));
    assert(acc_of(e, 5) == (match e.server_mode {
        Some(a) => entry_with_args(acc_of(e, 4), SchedMode::Server, a),
        None => acc_of(e, 4),
    }));
    assert(acc_of(e, 5) =~~= e);
}

/// Storing one mode's argument set leaves every other mode's set alone.
proof fn lemma_entry_with_args_other(e: EntryV, m: SchedMode, args: Seq<Seq<char>>, m2: SchedMode)
    requires
        m2 != m,
    ensures
        entry_mode_args(entry_with_args(e, m, args), m2) == entry_mode_args(e, m2),
{
    match m {
        SchedMode::Auto => {},
        SchedMode::Gaming => {},
        SchedMode::LowLatency => {},
        SchedMode::PowerSave => {},
        SchedMode::Server => {},
    }
}

/// A later field is still unset after an earlier step.
proof fn lemma_acc_partial(e: EntryV, k: int, t: int)
    requires
        0 <= k < t <= 5,
    ensures
        entry_mode_args(acc_of(e, k), mode_at(t)) is None,
    decreases k,
{
    if k > 0 {
        lemma_acc_partial(e, k - 1, t);
        let prev = acc_of(e, k - 1);
        let m = mode_at(k);
        assert(mode_at(t) != m);
        match entry_mode_args(e, m) {
            Some(a) => {
                lemma_entry_with_args_other(prev, m, a, mode_at(t));
            },
            None => {},
        }
    }
}

/// The field texts of a record are the five optional field texts in order.
#[verifier::rlimit(100)]
proof fn lemma_fields_texts_shape(e: EntryV, rest: Seq<Seq<char>>)
    ensures
        entry_lines(e).skip(1).map_values(|l: LineV| render_line(l)) + rest == tail_of(e, rest, 0),
{
    let f1 = opt_field_line(SchedMode::Auto, e.auto_mode);
    let f2 = opt_field_line(SchedMode::Gaming, e.gaming_mode);
    let f3 = opt_field_line(SchedMode::LowLatency, e.lowlatency_mode);
    let f4 = opt_field_line(SchedMode::PowerSave, e.powersave_mode);
    let f5 = opt_field_line(SchedMode::Server, e.server_mode);
    assert(tail_of(e, rest, 5) == rest);
    assert(tail_of(e, rest, 4) == opt_text(SchedMode::Server, e.server_mode) + rest);
    assert(tail_of(e, rest, 3) == opt_text(SchedMode::PowerSave, e.powersave_mode) + tail_of(
        e,
        rest,
        4,
    ));
    assert(tail_of(e, rest, 2) == opt_text(SchedMode::LowLatency, e.lowlatency_mode) + tail_of(
        e,
        rest,
        3,
    ));
    assert(tail_of(e, rest, 1) == opt_text(SchedMode::Gaming, e.gaming_mode) + tail_of(e, rest, 2));
    assert(tail_of(e, rest, 0) == opt_text(SchedMode::Auto, e.auto_mode) + tail_of(e, rest, 1));
    assert(entry_lines(e).skip(1) =~~= f1 + f2 + f3 + f4 + f5);
    lemma_map_render_append(f1 + f2 + f3 + f4, f5);
    lemma_map_render_append(f1 + f2 + f3, f4);
    lemma_map_render_append(f1 + f2, f3);
    lemma_map_render_append(f1, f2);
    assert(entry_lines(e).skip(1).map_values(|l: LineV| render_line(l)) + rest =~~= opt_text(
        SchedMode::Auto,
        e.auto_mode,
    ) + (opt_text(SchedMode::Gaming, e.gaming_mode) + (opt_text(
        SchedMode::LowLatency,
        e.lowlatency_mode,
    ) + (opt_text(SchedMode::PowerSave, e.powersave_mode) + (opt_text(
        SchedMode::Server,
        e.server_mode,
    ) + rest)))));
}

/// The rendered field lines of a record, followed by a header or the end,
/// read back as exactly that record.
proof fn lemma_parse_fields_entry(e: EntryV, rest: Seq<Seq<char>>)
    requires
        crate::store::entry_wf(e),
        rest.len() == 0 || (parse_line(rest[0]) matches Some(LineV::Header(_))),
    ensures
        parse_fields_t(
            entry_lines(e).skip(1).map_values(|l: LineV| render_line(l)) + rest,
            empty_entry(e.name),
        ) == Some((e, rest)),
{
    lemma_fields_texts_shape(e, rest);
    lemma_acc_complete(e);
    lemma_fields_one_step(e, rest, 1);
    lemma_fields_one_step(e, rest, 2);
    lemma_fields_one_step(e, rest, 3);
    lemma_fields_one_step(e, rest, 4);
    lemma_fields_one_step(e, rest, 5);
    assert(tail_of(e, rest, 5) == rest);
    assert(parse_fields_t(rest, acc_of(e, 5)) == Some((acc_of(e, 5), rest)));
}

/// The rendered tables of a uniquely-named, well-formed record list read
/// back as exactly that list.
#[verifier::rlimit(100)]
proof fn lemma_parse_entries_roundtrip(s: Seq<EntryV>)
    requires
        forall|i: int| 0 <= i < s.len() ==> crate::store::entry_wf(#[trigger] s[i]),
        forall|i: int, j: int| 0 <= i < j < s.len() ==> s[i].name != s[j].name,
    ensures
        parse_entries_t(entries_lines(s).map_values(|l: LineV| render_line(l))) == Some(s),
    decreases s.len(),
{
    let texts = entries_lines(s).map_values(|l: LineV| render_line(l));
    if s.len() == 0 {
        assert(texts.len() == 0);
        assert(parse_entries_t(texts) =~~= Some(s));
    } else {
        let e0 = s[0];
        let rest = s.skip(1);
        assert(forall|i: int|
            0 <= i < rest.len() ==> crate::store::entry_wf(#[trigger] rest[i]) && rest[i] == s[i
                + 1]);
        lemma_parse_entries_roundtrip(rest);
        let ft = entry_lines(e0).skip(1).map_values(|l: LineV| render_line(l));
        let rt = entries_lines(rest).map_values(|l: LineV| render_line(l));
        assert(entries_lines(s) =~~= entry_lines(e0) + entries_lines(rest));
        assert(texts =~~= seq![render_line(LineV::Header(e0.name))] + (ft + rt));
        lemma_parse_line_roundtrip(LineV::Header(e0.name));
        assert(texts[0] == render_line(LineV::Header(e0.name)));
        if rest.len() > 0 {
            assert(entries_lines(rest) =~~= entry_lines(rest[0]) + entries_lines(rest.skip(1)));
            assert(entries_lines(rest)[0] == LineV::Header(rest[0].name));
            assert(rt[0] == render_line(LineV::Header(rest[0].name)));
            lemma_parse_line_roundtrip(LineV::Header(rest[0].name));
        }
        lemma_parse_fields_entry(e0, rt);
        assert(texts.skip(1) =~~= ft + rt);
        assert(parse_fields_t(texts.skip(1), empty_entry(e0.name)) == Some((e0, rt)));
        assert(!contains_name(rest, e0.name)) by {
            if contains_name(rest, e0.name) {
                let t = choose|t: int| 0 <= t < rest.len() && #[trigger] rest[t].name == e0.name;
                assert(s[t + 1].name == s[0].name);
            }
        }
        assert(parse_entries_t(texts) == Some(seq![e0] + rest));
        assert(seq![e0] + rest =~~= s);
    }
}

/// Every line of a well-formed configuration's document is well formed.
proof fn lemma_entries_lines_wf(s: Seq<EntryV>)
    requires
        forall|i: int| 0 <= i < s.len() ==> crate::store::entry_wf(#[trigger] s[i]),
    ensures
        forall|i: int| 0 <= i < entries_lines(s).len() ==> line_wf(#[trigger] entries_lines(s)[i]),
    decreases s.len(),
{
    if s.len() > 0 {
        assert(forall|i: int|
            0 <= i < s.skip(1).len() ==> crate::store::entry_wf(#[trigger] s.skip(1)[i]));
        lemma_entries_lines_wf(s.skip(1));
        let el = entry_lines(s[0]);
        assert(crate::store::entry_wf(s[0]));
        assert forall|i: int| 0 <= i < el.len() implies line_wf(#[trigger] el[i]) by {
            assert(el =~~= seq![LineV::Header(s[0].name)] + opt_field_line(
                SchedMode::Auto,
                s[0].auto_mode,
            ) + opt_field_line(SchedMode::Gaming, s[0].gaming_mode) + opt_field_line(
                SchedMode::LowLatency,
                s[0].lowlatency_mode,
            ) + opt_field_line(SchedMode::PowerSave, s[0].powersave_mode) + opt_field_line(
                SchedMode::Server,
                s[0].server_mode,
            ));
        }
        assert forall|i: int|
            0 <= i < entries_lines(s).len() implies line_wf(#[trigger] entries_lines(s)[i]) by {
            assert(entries_lines(s) =~~= el + entries_lines(s.skip(1)));
            if i < el.len() {
                assert(entries_lines(s)[i] == el[i]);
            } else {
                assert(entries_lines(s)[i] == entries_lines(s.skip(1))[i - el.len()]);
            }
        }
    }
}

/// Every line of a well-formed configuration's document is well formed.
proof fn lemma_lines_of_wf(c: ConfigV)
    requires
        c.wf(),
    ensures
        forall|i: int| 0 <= i < lines_of(c).len() ==> line_wf(#[trigger] lines_of(c)[i]),
{
    lemma_entries_lines_wf(c.scheds);
    let a = match c.default_sched {
        Some(n) => seq![LineV::DefaultSched(n)],
        None => Seq::<LineV>::empty(),
    };
    let b = match c.default_mode {
        Some(m) => seq![LineV::DefaultMode(m)],
        None => Seq::<LineV>::empty(),
    };
    assert forall|i: int| 0 <= i < lines_of(c).len() implies line_wf(#[trigger] lines_of(c)[i]) by {
        if i < a.len() {
            assert(lines_of(c)[i] == a[i]);
        } else if i < a.len() + b.len() {
            assert(lines_of(c)[i] == b[i - a.len()]);
        } else {
            assert(lines_of(c)[i] == entries_lines(c.scheds)[i - a.len() - b.len()]);
        }
    }
}

/// The non-blank lines of a well-formed configuration's rendered document
/// read back as exactly that configuration.
#[verifier::rlimit(100)]
proof fn lemma_parse_doc_roundtrip(c: ConfigV)
    requires
        c.wf(),
        lines_of(c).len() > 0,
    ensures
        parse_doc_texts(lines_of(c).map_values(|l: LineV| render_line(l))) == Some(c),
{
    let ls = lines_of(c);
    let texts = ls.map_values(|l: LineV| render_line(l));
    let et = entries_lines(c.scheds).map_values(|l: LineV| render_line(l));
    lemma_parse_entries_roundtrip(c.scheds);
    match c.default_sched {
        Some(n) => {
            assert(c.default_mode is Some);
            let m = c.default_mode.unwrap();
            assert(ls =~~= seq![LineV::DefaultSched(n), LineV::DefaultMode(m)] + entries_lines(
                c.scheds,
            ));
            lemma_parse_line_roundtrip(LineV::DefaultSched(n));
            lemma_parse_line_roundtrip(LineV::DefaultMode(m));
            assert(texts[0] == render_line(LineV::DefaultSched(n)));
            assert(texts[1] == render_line(LineV::DefaultMode(m)));
            assert(texts.skip(2) =~~= et);
            assert(parse_doc_texts(texts) == Some(
                ConfigV { default_sched: Some(n), default_mode: Some(m), scheds: c.scheds },
            ));
            assert(ConfigV { default_sched: Some(n), default_mode: Some(m), scheds: c.scheds }
                =~~= c);
        },
        None => match c.default_mode {
            Some(m) => {
                assert(ls =~~= seq![LineV::DefaultMode(m)] + entries_lines(c.scheds));
                lemma_parse_line_roundtrip(LineV::DefaultMode(m));
                assert(texts[0] == render_line(LineV::DefaultMode(m)));
                assert(texts.skip(1) =~~= et);
                assert(parse_doc_texts(texts) == Some(
                    ConfigV { default_sched: None, default_mode: Some(m), scheds: c.scheds },
                ));
                assert(ConfigV { default_sched: None, default_mode: Some(m), scheds: c.scheds }
                    =~~= c);
            },
            None => {
                assert(ls =~~= entries_lines(c.scheds));
                assert(c.scheds.len() > 0) by {
                    if c.scheds.len() == 0 {
                        assert(entries_lines(c.scheds).len() == 0);
                    }
                }
                assert(entries_lines(c.scheds) =~~= entry_lines(c.scheds[0]) + entries_lines(
                    c.scheds.skip(1),
                ));
                assert(ls[0] == LineV::Header(c.scheds[0].name));
                assert(crate::store::entry_wf(c.scheds[0]));
                lemma_parse_line_roundtrip(LineV::Header(c.scheds[0].name));
                assert(texts[0] == render_line(LineV::Header(c.scheds[0].name)));
                assert(texts =~~= et);
                assert(parse_doc_texts(texts) == Some(
                    ConfigV { default_sched: None, default_mode: None, scheds: c.scheds },
                ));
                assert(ConfigV { default_sched: None, default_mode: None, scheds: c.scheds }
                    =~~= c);
            },
        },
    }
}

/// Round trip: rendering a well-formed configuration and parsing the text
/// back yields an equal configuration.  The one configuration without a
/// document line (no defaults and no records) renders as the empty
/// document, which parsing refuses, so it is left out.
pub proof fn lemma_document_roundtrip(c: ConfigV)
    requires
        c.wf(),
        lines_of(c).len() != 0,
    ensures
        parse_document(text_of(lines_of(c))) == Some(c),
{
    let ls = lines_of(c);
    lemma_lines_of_wf(c);
    lemma_document_lines(ls);
    lemma_render_line_clean(ls[0]);
    assert(text_of(ls).len() > 0) by {
        assert(text_of(ls) == render_line(ls[0]) + seq!['\n'] + text_of(ls.skip(1)));
    }
    lemma_parse_doc_roundtrip(c);
}

} // verus!
