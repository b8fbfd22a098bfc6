//! Static command analysis: walks a parsed script and collects the command
//! names it would dispatch and the functions it defines, without running
//! anything. The script is held in the library's own syntax tree, which
//! keeps of the shell grammar what the walk reads: command words, nested
//! command lists, and process substitutions.
use vstd::prelude::*;

use crate::text::{chars_of, compare_chars};
use crate::vfs::overlay_tree::strings_view;

verus! {

/// Literal command names and function definitions collected from a
/// script, each deduplicated in first-encountered order.
#[derive(Debug, Default)]
pub struct CollectedCommands {
    /// Every literal simple-command name.
    pub commands: Vec<String>,
    /// Names of functions defined in the analyzed script.
    pub defined_functions: Vec<String>,
}

/// Appends `name` unless the list already holds it.
pub fn push_unique(list: &mut Vec<String>, name: String)
    ensures
        strings_view(final(list)@) == if strings_view(old(list)@).contains(name@) {
            strings_view(old(list)@)
        } else {
            strings_view(old(list)@).push(name@)
        },
{
    let target = chars_of(name.as_str());
    let ghost sv = strings_view(list@);
    let mut k: usize = 0;
    while k < list.len()
        invariant
            k <= list@.len(),
            sv == strings_view(list@),
            target@ == name@,
            forall|x: int| 0 <= x < k ==> sv[x] != name@,
        decreases list.len() - k,
    {
        let c = chars_of(list[k].as_str());
        if compare_chars(&c, &target) == 0 {
            assert(sv[k as int] == name@);
            assert(sv.contains(name@));
            return;
        }
        k = k + 1;
    }
    proof {
        if sv.contains(name@) {
            let x = choose|x: int| 0 <= x < sv.len() && sv[x] == name@;
            assert(sv[x] != name@);
        }
    }
    list.push(name);
    assert(strings_view(list@) =~= sv.push(name@));
}

/// A character of a plain command name: ASCII letters and digits and
/// `_ - . : % @ +`.
pub open spec fn is_plain_name_char(c: char) -> bool {
    let n = c as u32;
    (48 <= n <= 57) || (65 <= n <= 90) || (97 <= n <= 122) || c == '_' || c == '-' || c == '.' || c == ':'
        || c == '%' || c == '@' || c == '+'
}

/// A word is a statically knowable command name only when it is a plain,
/// non-empty literal: expansions, globs, quotes and other shell
/// metacharacters make the name depend on runtime state.
pub fn literal_command_name(word: &str) -> (r: Option<&str>)
    ensures
        match r {
            Some(s) => s@ == word@ && word@.len() > 0 && forall|i: int| 0 <= i < word@.len() ==> is_plain_name_char(#[trigger] word@[i]),
            None => word@.len() == 0 || exists|i: int| 0 <= i < word@.len() && !is_plain_name_char(#[trigger] word@[i]),
        },
{
    let cs = chars_of(word);
    if cs.len() == 0 {
        return None;
    }
    let mut k: usize = 0;
    while k < cs.len()
        invariant
            k <= cs@.len(),
            cs@ == word@,
            forall|i: int| 0 <= i < k ==> is_plain_name_char(#[trigger] word@[i]),
        decreases cs.len() - k,
    {
        let c = cs[k];
        let n = c as u32;
        let plain = (48 <= n && n <= 57) || (65 <= n && n <= 90) || (97 <= n && n <= 122) || c == '_' || c == '-'
            || c == '.' || c == ':' || c == '%' || c == '@' || c == '+';
        if !plain {
            assert(!is_plain_name_char(word@[k as int]));
            return None;
        }
        k = k + 1;
    }
    Some(word)
}


// ── Syntax tree ────────────────────────────────────────────────────

/// A parsed script: its complete commands in order.
pub struct Program {
    pub complete_commands: Vec<CompoundList>,
}

/// A list of and-or lists, as in a script body or a compound command.
pub struct CompoundList(pub Vec<AndOrList>);

/// Pipelines joined by `&&` and `||`; the operators do not matter to the
/// walk, only the pipelines in order.
pub struct AndOrList {
    pub first: Pipeline,
    pub additional: Vec<Pipeline>,
}

/// The commands of a pipeline, in order.
pub struct Pipeline {
    pub seq: Vec<Command>,
}

/// A command of a pipeline.
pub enum Command {
    Simple(SimpleCommand),
    Compound(CompoundCommand),
    /// A function definition: the name word and the body.
    Function { fname: String, body: CompoundCommand },
    /// `[[ ... ]]`: evaluates a test expression and dispatches nothing.
    ExtendedTest,
}

/// A simple command: the raw text of its command word, if any, and the
/// items before and after it.
pub struct SimpleCommand {
    pub word_or_name: Option<String>,
    pub prefix: Vec<CommandItem>,
    pub suffix: Vec<CommandItem>,
}

/// An item of a simple command's prefix or suffix: a process
/// substitution holds a runnable command list; anything else (words,
/// assignments, redirections) holds none.
pub enum CommandItem {
    ProcessSubstitution(CompoundList),
    Other,
}

/// An `else` or `elif` branch.
pub struct ElseClause {
    pub condition: Option<CompoundList>,
    pub body: CompoundList,
}

/// A compound command and the command lists it holds.
pub enum CompoundCommand {
    Arithmetic,
    ArithmeticForClause(CompoundList),
    BraceGroup(CompoundList),
    Subshell(CompoundList),
    ForClause(CompoundList),
    /// The commands of the case items that have one, in order.
    CaseClause(Vec<Option<CompoundList>>),
    IfClause { condition: CompoundList, then: CompoundList, elses: Option<Vec<ElseClause>> },
    WhileClause(CompoundList, CompoundList),
    UntilClause(CompoundList, CompoundList),
    Coprocess(Box<Command>),
}

// ── What the walk finds ────────────────────────────────────────────

/// A word is a plain name: non-empty, of plain name characters only.
pub open spec fn is_literal_name(w: Seq<char>) -> bool {
    w.len() > 0 && forall|i: int| 0 <= i < w.len() ==> is_plain_name_char(#[trigger] w[i])
}

/// What the walk meets, in order: `(true, name)` for the literal name of
/// a simple command, `(false, name)` for the literal name of a defined
/// function.
pub open spec fn list_events(l: CompoundList) -> Seq<(bool, Seq<char>)>
    decreases l,
{
    andors_events(l.0@)
}

pub open spec fn andors_events(s: Seq<AndOrList>) -> Seq<(bool, Seq<char>)>
    decreases s,
{
    if s.len() == 0 {
        seq![]
    } else {
        andors_events(s.subrange(0, s.len() - 1)) + andor_events(s[s.len() - 1])
    }
}

pub open spec fn andor_events(a: AndOrList) -> Seq<(bool, Seq<char>)>
    decreases a,
{
    pipeline_events(a.first) + pipelines_events(a.additional@)
}

pub open spec fn pipelines_events(s: Seq<Pipeline>) -> Seq<(bool, Seq<char>)>
    decreases s,
{
    if s.len() == 0 {
        seq![]
    } else {
        pipelines_events(s.subrange(0, s.len() - 1)) + pipeline_events(s[s.len() - 1])
    }
}

pub open spec fn pipeline_events(p: Pipeline) -> Seq<(bool, Seq<char>)>
    decreases p,
{
    commands_events(p.seq@)
}

pub open spec fn commands_events(s: Seq<Command>) -> Seq<(bool, Seq<char>)>
    decreases s,
{
    if s.len() == 0 {
        seq![]
    } else {
        commands_events(s.subrange(0, s.len() - 1)) + command_events(s[s.len() - 1])
    }
}

pub open spec fn command_events(c: Command) -> Seq<(bool, Seq<char>)>
    decreases c,
{
    match c {
        Command::Simple(sc) => simple_events(sc),
        Command::Compound(cc) => compound_events(cc),
        Command::Function { fname, body } => {
            let own = if is_literal_name(fname@) {
                seq![(false, fname@)]
            } else {
                seq![]
            };
            own + compound_events(body)
        },
        Command::ExtendedTest => seq![],
    }
}

/// The event of a simple command's own word, if it is a literal name.
pub open spec fn simple_own_events(sc: SimpleCommand) -> Seq<(bool, Seq<char>)> {
    match sc.word_or_name {
        Some(w) => if is_literal_name(w@) {
            seq![(true, w@)]
        } else {
            seq![]
        },
        None => seq![],
    }
}

pub open spec fn simple_events(sc: SimpleCommand) -> Seq<(bool, Seq<char>)>
    decreases sc,
{
    simple_own_events(sc) + items_events(sc.prefix@) + items_events(sc.suffix@)
}

pub open spec fn items_events(s: Seq<CommandItem>) -> Seq<(bool, Seq<char>)>
    decreases s,
{
    if s.len() == 0 {
        seq![]
    } else {
        items_events(s.subrange(0, s.len() - 1)) + match s[s.len() - 1] {
            CommandItem::ProcessSubstitution(l) => list_events(l),
            CommandItem::Other => seq![],
        }
    }
}

/// The events of an `elif` condition (none for `else`).
pub open spec fn else_condition_events(e: ElseClause) -> Seq<(bool, Seq<char>)>
    decreases e,
{
    match e.condition {
        Some(c) => list_events(c),
        None => seq![],
    }
}

pub open spec fn elses_events(s: Seq<ElseClause>) -> Seq<(bool, Seq<char>)>
    decreases s,
{
    if s.len() == 0 {
        seq![]
    } else {
        let e = s[s.len() - 1];
        elses_events(s.subrange(0, s.len() - 1)) + else_condition_events(e) + list_events(e.body)
    }
}

/// The events of the branches after `then`, if any.
pub open spec fn opt_elses_events(e: Option<Vec<ElseClause>>) -> Seq<(bool, Seq<char>)>
    decreases e,
{
    match e {
        Some(es) => elses_events(es@),
        None => seq![],
    }
}

pub open spec fn cases_events(s: Seq<Option<CompoundList>>) -> Seq<(bool, Seq<char>)>
    decreases s,
{
    if s.len() == 0 {
        seq![]
    } else {
        cases_events(s.subrange(0, s.len() - 1)) + match s[s.len() - 1] {
            Some(l) => list_events(l),
            None => seq![],
        }
    }
}

pub open spec fn compound_events(cc: CompoundCommand) -> Seq<(bool, Seq<char>)>
    decreases cc,
{
    match cc {
        CompoundCommand::Arithmetic => seq![],
        CompoundCommand::ArithmeticForClause(l) => list_events(l),
        CompoundCommand::BraceGroup(l) => list_events(l),
        CompoundCommand::Subshell(l) => list_events(l),
        CompoundCommand::ForClause(l) => list_events(l),
        CompoundCommand::CaseClause(items) => cases_events(items@),
        CompoundCommand::IfClause { condition, then, elses } => list_events(condition) + list_events(then) + opt_elses_events(elses),
        CompoundCommand::WhileClause(c, b) => list_events(c) + list_events(b),
        CompoundCommand::UntilClause(c, b) => list_events(c) + list_events(b),
        CompoundCommand::Coprocess(b) => command_events(*b),
    }
}

/// The events of a whole script.
pub open spec fn program_events(p: Program) -> Seq<(bool, Seq<char>)> {
    lists_events(p.complete_commands@)
}

pub open spec fn lists_events(s: Seq<CompoundList>) -> Seq<(bool, Seq<char>)>
    decreases s.len(),
{
    if s.len() == 0 {
        seq![]
    } else {
        lists_events(s.drop_last()) + list_events(s.last())
    }
}

/// The two name lists after taking in `ev`: each name goes to its list
/// unless the list already holds it.
pub open spec fn absorb(lists: (Seq<Seq<char>>, Seq<Seq<char>>), ev: Seq<(bool, Seq<char>)>) -> (Seq<Seq<char>>, Seq<Seq<char>>)
    decreases ev.len(),
{
    if ev.len() == 0 {
        lists
    } else {
        let prev = absorb(lists, ev.drop_last());
        let (is_cmd, name) = ev.last();
        if is_cmd {
            (if prev.0.contains(name) { prev.0 } else { prev.0.push(name) }, prev.1)
        } else {
            (prev.0, if prev.1.contains(name) { prev.1 } else { prev.1.push(name) })
        }
    }
}

/// Taking in two runs of events one after the other is taking in both.
pub proof fn lemma_absorb_concat(lists: (Seq<Seq<char>>, Seq<Seq<char>>), a: Seq<(bool, Seq<char>)>, b: Seq<(bool, Seq<char>)>)
    ensures
        absorb(absorb(lists, a), b) == absorb(lists, a + b),
    decreases b.len(),
{
    if b.len() == 0 {
        assert(a + b =~= a);
    } else {
        lemma_absorb_concat(lists, a, b.drop_last());
        assert((a + b).drop_last() =~= a + b.drop_last());
        assert((a + b).last() == b.last());
    }
}

/// The collected lists hold each name once (when they started so), and a
/// name is in a list exactly when it was there before or the walk met it
/// as a name of that kind.
pub proof fn lemma_absorb_names(lists: (Seq<Seq<char>>, Seq<Seq<char>>), ev: Seq<(bool, Seq<char>)>)
    ensures
        lists.0.no_duplicates() ==> absorb(lists, ev).0.no_duplicates(),
        lists.1.no_duplicates() ==> absorb(lists, ev).1.no_duplicates(),
        forall|x: Seq<char>| #[trigger] absorb(lists, ev).0.contains(x) <==> (lists.0.contains(x) || ev.contains((true, x))),
        forall|x: Seq<char>| #[trigger] absorb(lists, ev).1.contains(x) <==> (lists.1.contains(x) || ev.contains((false, x))),
    decreases ev.len(),
{
    if ev.len() > 0 {
        let prev = absorb(lists, ev.drop_last());
        lemma_absorb_names(lists, ev.drop_last());
        let (is_cmd, name) = ev.last();
        assert forall|x: Seq<char>| ev.contains((true, x)) <==> (ev.drop_last().contains((true, x)) || ev.last() == (true, x)) by {
            if ev.contains((true, x)) {
                let k = choose|k: int| 0 <= k < ev.len() && ev[k] == (true, x);
                if k < ev.len() - 1 {
                    assert(ev.drop_last()[k] == (true, x));
                }
            }
            if ev.drop_last().contains((true, x)) {
                let k = choose|k: int| 0 <= k < ev.drop_last().len() && ev.drop_last()[k] == (true, x);
                assert(ev[k] == (true, x));
            }
            if ev.last() == (true, x) {
                assert(ev[ev.len() - 1] == (true, x));
            }
        }
        assert forall|x: Seq<char>| ev.contains((false, x)) <==> (ev.drop_last().contains((false, x)) || ev.last() == (false, x)) by {
            if ev.contains((false, x)) {
                let k = choose|k: int| 0 <= k < ev.len() && ev[k] == (false, x);
                if k < ev.len() - 1 {
                    assert(ev.drop_last()[k] == (false, x));
                }
            }
            if ev.drop_last().contains((false, x)) {
                let k = choose|k: int| 0 <= k < ev.drop_last().len() && ev.drop_last()[k] == (false, x);
                assert(ev[k] == (false, x));
            }
            if ev.last() == (false, x) {
                assert(ev[ev.len() - 1] == (false, x));
            }
        }
        if is_cmd {
            if !prev.0.contains(name) {
                assert forall|x: Seq<char>| #[trigger] prev.0.push(name).contains(x) <==> (prev.0.contains(x) || x == name) by {
                    if prev.0.push(name).contains(x) {
                        let k = choose|k: int| 0 <= k < prev.0.push(name).len() && prev.0.push(name)[k] == x;
                        if k < prev.0.len() {
                            assert(prev.0[k] == x);
                        }
                    }
                    if prev.0.contains(x) {
                        let k = choose|k: int| 0 <= k < prev.0.len() && prev.0[k] == x;
                        assert(prev.0.push(name)[k] == x);
                    }
                    if x == name {
                        assert(prev.0.push(name)[prev.0.len() as int] == x);
                    }
                }
            }
        } else {
            if !prev.1.contains(name) {
                assert forall|x: Seq<char>| #[trigger] prev.1.push(name).contains(x) <==> (prev.1.contains(x) || x == name) by {
                    if prev.1.push(name).contains(x) {
                        let k = choose|k: int| 0 <= k < prev.1.push(name).len() && prev.1.push(name)[k] == x;
                        if k < prev.1.len() {
                            assert(prev.1[k] == x);
                        }
                    }
                    if prev.1.contains(x) {
                        let k = choose|k: int| 0 <= k < prev.1.len() && prev.1[k] == x;
                        assert(prev.1.push(name)[k] == x);
                    }
                    if x == name {
                        assert(prev.1.push(name)[prev.1.len() as int] == x);
                    }
                }
            }
        }
    }
}

impl CollectedCommands {
    /// The two name lists as plain values.
    pub open spec fn lists(&self) -> (Seq<Seq<char>>, Seq<Seq<char>>) {
        (strings_view(self.commands@), strings_view(self.defined_functions@))
    }
}

// ── The walk ───────────────────────────────────────────────────────

/// Collects the literal command names and function definitions of a
/// script: walks every list, pipeline, function body, subshell, process
/// substitution and compound-command body, and keeps each name once, in
/// first-encountered order.
pub fn collect_commands(program: &Program) -> (out: CollectedCommands)
    ensures
        out.lists() == absorb((seq![], seq![]), program_events(*program)),
{
    let mut out = CollectedCommands { commands: Vec::new(), defined_functions: Vec::new() };
    let ghost start = out.lists();
    proof {
        assert(start == (Seq::<Seq<char>>::empty(), Seq::<Seq<char>>::empty())) by {
            assert(strings_view(out.commands@) =~= Seq::<Seq<char>>::empty());
            assert(strings_view(out.defined_functions@) =~= Seq::<Seq<char>>::empty());
        }
        assert(program.complete_commands@.take(0) =~= Seq::<CompoundList>::empty());
    }
    let mut k: usize = 0;
    while k < program.complete_commands.len()
        invariant
            k <= program.complete_commands.len(),
            start == (Seq::<Seq<char>>::empty(), Seq::<Seq<char>>::empty()),
            out.lists() == absorb(start, lists_events(program.complete_commands@.take(k as int))),
        decreases program.complete_commands.len() - k,
    {
        let ghost before = out.lists();
        collect_list(&program.complete_commands[k], &mut out);
        proof {
            let s = program.complete_commands@;
            assert(s.take(k + 1).drop_last() =~= s.take(k as int));
            assert(s.take(k + 1).last() == s[k as int]);
            lemma_absorb_concat(start, lists_events(s.take(k as int)), list_events(s[k as int]));
        }
        k = k + 1;
    }
    proof {
        assert(program.complete_commands@.take(k as int) =~= program.complete_commands@);
    }
    out
}

/// Takes in a command name: `push_unique` on the commands list.
fn take_command_name(out: &mut CollectedCommands, name: String)
    ensures
        final(out).lists() == absorb(old(out).lists(), seq![(true, name@)]),
{
    let ghost before = out.lists();
    let ghost ev = seq![(true, name@)];
    push_unique(&mut out.commands, name);
    proof {
        assert(ev.drop_last() =~= Seq::<(bool, Seq<char>)>::empty());
        assert(absorb(before, ev.drop_last()) == before);
        assert(ev.last() == (true, name@));
    }
}

/// Takes in a function name: `push_unique` on the functions list.
fn take_function_name(out: &mut CollectedCommands, name: String)
    ensures
        final(out).lists() == absorb(old(out).lists(), seq![(false, name@)]),
{
    let ghost before = out.lists();
    let ghost ev = seq![(false, name@)];
    push_unique(&mut out.defined_functions, name);
    proof {
        assert(ev.drop_last() =~= Seq::<(bool, Seq<char>)>::empty());
        assert(absorb(before, ev.drop_last()) == before);
        assert(ev.last() == (false, name@));
    }
}

fn collect_list(list: &CompoundList, out: &mut CollectedCommands)
    ensures
        final(out).lists() == absorb(old(out).lists(), list_events(*list)),
    decreases list, 1int,
{
    let ghost o = out.lists();
    let ghost s = list.0@;
    proof {
        assert(s.subrange(0, 0) =~= Seq::<AndOrList>::empty());
    }
    let mut k: usize = 0;
    while k < list.0.len()
        invariant
            k <= list.0.len(),
            s == list.0@,
            out.lists() == absorb(o, andors_events(s.subrange(0, k as int))),
        decreases list.0.len() - k,
    {
        proof {
            assert(decreases_to!(list => list.0));
            assert(decreases_to!(list.0 => list.0@));
            assert(decreases_to!(list.0@ => list.0@[k as int]));
        }
        collect_and_or(&list.0[k], out);
        proof {
            assert(s.subrange(0, k + 1).subrange(0, k as int) =~= s.subrange(0, k as int));
            lemma_absorb_concat(o, andors_events(s.subrange(0, k as int)), andor_events(s[k as int]));
        }
        k = k + 1;
    }
    proof {
        assert(s.subrange(0, s.len() as int) =~= s);
    }
}

fn collect_and_or(a: &AndOrList, out: &mut CollectedCommands)
    ensures
        final(out).lists() == absorb(old(out).lists(), andor_events(*a)),
    decreases a, 1int,
{
    let ghost o = out.lists();
    collect_pipeline(&a.first, out);
    let ghost mid = out.lists();
    let ghost s = a.additional@;
    proof {
        assert(s.subrange(0, 0) =~= Seq::<Pipeline>::empty());
        assert(pipeline_events(a.first) + pipelines_events(Seq::<Pipeline>::empty()) =~= pipeline_events(a.first));
    }
    let mut k: usize = 0;
    while k < a.additional.len()
        invariant
            k <= a.additional.len(),
            s == a.additional@,
            mid == absorb(o, pipeline_events(a.first)),
            out.lists() == absorb(mid, pipelines_events(s.subrange(0, k as int))),
        decreases a.additional.len() - k,
    {
        proof {
            assert(decreases_to!(a => a.additional));
            assert(decreases_to!(a.additional => a.additional@));
            assert(decreases_to!(a.additional@ => a.additional@[k as int]));
        }
        collect_pipeline(&a.additional[k], out);
        proof {
            assert(s.subrange(0, k + 1).subrange(0, k as int) =~= s.subrange(0, k as int));
            lemma_absorb_concat(mid, pipelines_events(s.subrange(0, k as int)), pipeline_events(s[k as int]));
        }
        k = k + 1;
    }
    proof {
        assert(s.subrange(0, s.len() as int) =~= s);
        lemma_absorb_concat(o, pipeline_events(a.first), pipelines_events(s));
    }
}

fn collect_pipeline(p: &Pipeline, out: &mut CollectedCommands)
    ensures
        final(out).lists() == absorb(old(out).lists(), pipeline_events(*p)),
    decreases p, 1int,
{
    let ghost o = out.lists();
    let ghost s = p.seq@;
    proof {
        assert(s.subrange(0, 0) =~= Seq::<Command>::empty());
    }
    let mut k: usize = 0;
    while k < p.seq.len()
        invariant
            k <= p.seq.len(),
            s == p.seq@,
            out.lists() == absorb(o, commands_events(s.subrange(0, k as int))),
        decreases p.seq.len() - k,
    {
        proof {
            assert(decreases_to!(p => p.seq));
            assert(decreases_to!(p.seq => p.seq@));
            assert(decreases_to!(p.seq@ => p.seq@[k as int]));
        }
        collect_command(&p.seq[k], out);
        proof {
            assert(s.subrange(0, k + 1).subrange(0, k as int) =~= s.subrange(0, k as int));
            lemma_absorb_concat(o, commands_events(s.subrange(0, k as int)), command_events(s[k as int]));
        }
        k = k + 1;
    }
    proof {
        assert(s.subrange(0, s.len() as int) =~= s);
    }
}

fn collect_command(command: &Command, out: &mut CollectedCommands)
    ensures
        final(out).lists() == absorb(old(out).lists(), command_events(*command)),
    decreases command, 1int,
{
    let ghost o = out.lists();
    match command {
        Command::Simple(simple) => collect_simple_command(simple, out),
        Command::Compound(compound) => collect_compound_command(compound, out),
        Command::Function { fname, body } => {
            let named = literal_command_name(fname.as_str()).is_some();
            if named {
                take_function_name(out, fname.clone());
            }
            let ghost mid = out.lists();
            collect_compound_command(body, out);
            proof {
                let own = if is_literal_name(fname@) { seq![(false, fname@)] } else { Seq::<(bool, Seq<char>)>::empty() };
                if !named {
                    assert(absorb(o, own) == o);
                }
                assert(mid == absorb(o, own));
                lemma_absorb_concat(o, own, compound_events(*body));
            }
        },
        Command::ExtendedTest => {},
    }
}

fn collect_simple_command(cmd: &SimpleCommand, out: &mut CollectedCommands)
    ensures
        final(out).lists() == absorb(old(out).lists(), simple_events(*cmd)),
    decreases cmd, 1int,
{
    let ghost o = out.lists();
    let ghost own = simple_own_events(*cmd);
    match &cmd.word_or_name {
        Some(w) => {
            if literal_command_name(w.as_str()).is_some() {
                take_command_name(out, w.clone());
            }
        },
        None => {},
    }
    proof {
        if own.len() == 0 {
            assert(absorb(o, own) == o);
        }
    }
    let ghost mid = out.lists();
    collect_items(&cmd.prefix, out);
    let ghost mid2 = out.lists();
    collect_items(&cmd.suffix, out);
    proof {
        assert(decreases_to!(cmd => cmd.prefix));
        lemma_absorb_concat(o, own, items_events(cmd.prefix@));
        lemma_absorb_concat(o, own + items_events(cmd.prefix@), items_events(cmd.suffix@));
    }
}

/// Walks the process substitutions among a simple command's items.
fn collect_items(items: &Vec<CommandItem>, out: &mut CollectedCommands)
    ensures
        final(out).lists() == absorb(old(out).lists(), items_events(items@)),
    decreases items, 1int,
{
    let ghost o = out.lists();
    let ghost s = items@;
    proof {
        assert(s.subrange(0, 0) =~= Seq::<CommandItem>::empty());
    }
    let mut k: usize = 0;
    while k < items.len()
        invariant
            k <= items.len(),
            s == items@,
            out.lists() == absorb(o, items_events(s.subrange(0, k as int))),
        decreases items.len() - k,
    {
        let ghost before = out.lists();
        match &items[k] {
            CommandItem::ProcessSubstitution(list) => {
                proof {
                    assert(decreases_to!(items => items@));
                    assert(decreases_to!(items@ => items@[k as int]));
                }
                collect_list(list, out);
            },
            CommandItem::Other => {
                proof {
                    assert(absorb(before, Seq::<(bool, Seq<char>)>::empty()) == before);
                }
            },
        }
        proof {
            let tail = match s[k as int] {
                CommandItem::ProcessSubstitution(l) => list_events(l),
                CommandItem::Other => Seq::<(bool, Seq<char>)>::empty(),
            };
            assert(s.subrange(0, k + 1).subrange(0, k as int) =~= s.subrange(0, k as int));
            assert(out.lists() == absorb(before, tail));
            lemma_absorb_concat(o, items_events(s.subrange(0, k as int)), tail);
        }
        k = k + 1;
    }
    proof {
        assert(s.subrange(0, s.len() as int) =~= s);
    }
}

fn collect_compound_command(compound: &CompoundCommand, out: &mut CollectedCommands)
    ensures
        final(out).lists() == absorb(old(out).lists(), compound_events(*compound)),
    decreases compound, 1int,
{
    let ghost o = out.lists();
    match compound {
        CompoundCommand::IfClause { .. } => collect_if(compound, out),
        CompoundCommand::ForClause(body) => collect_list(body, out),
        CompoundCommand::ArithmeticForClause(body) => collect_list(body, out),
        CompoundCommand::WhileClause(cond, body) | CompoundCommand::UntilClause(cond, body) => {
            collect_list(cond, out);
            collect_list(body, out);
            proof {
                lemma_absorb_concat(o, list_events(*cond), list_events(*body));
            }
        },
        CompoundCommand::BraceGroup(list) => collect_list(list, out),
        CompoundCommand::Subshell(list) => collect_list(list, out),
        CompoundCommand::CaseClause(cases) => collect_cases(cases, out),
        CompoundCommand::Arithmetic => {},
        CompoundCommand::Coprocess(body) => collect_command(body, out),
    }
}

/// Walks an `if`: its condition, its `then` branch, then the `elif` and
/// `else` branches.
fn collect_if(compound: &CompoundCommand, out: &mut CollectedCommands)
    requires
        compound is IfClause,
    ensures
        final(out).lists() == absorb(old(out).lists(), compound_events(*compound)),
    decreases compound, 0int,
{
    let ghost o = out.lists();
    match compound {
        CompoundCommand::IfClause { condition, then, elses } => {
            collect_list(condition, out);
            collect_list(then, out);
            let ghost m2 = out.lists();
            match elses {
                Some(es) => collect_elses(es, out),
                None => {},
            }
            proof {
                let tail = opt_elses_events(*elses);
                if elses.is_none() {
                    assert(absorb(m2, tail) == m2);
                }
                assert(out.lists() == absorb(m2, tail));
                lemma_absorb_concat(o, list_events(*condition), list_events(*then));
                lemma_absorb_concat(o, list_events(*condition) + list_events(*then), tail);
            }
        },
        _ => {},
    }
}

/// Walks the `elif` and `else` branches of an `if`.
fn collect_elses(elses: &Vec<ElseClause>, out: &mut CollectedCommands)
    ensures
        final(out).lists() == absorb(old(out).lists(), elses_events(elses@)),
    decreases elses, 1int,
{
    let ghost o = out.lists();
    let ghost s = elses@;
    proof {
        assert(s.subrange(0, 0) =~= Seq::<ElseClause>::empty());
    }
    let mut k: usize = 0;
    while k < elses.len()
        invariant
            k <= elses.len(),
            s == elses@,
            out.lists() == absorb(o, elses_events(s.subrange(0, k as int))),
        decreases elses.len() - k,
    {
        let ghost before = out.lists();
        let clause = &elses[k];
        proof {
            assert(decreases_to!(elses => elses@));
            assert(decreases_to!(elses@ => elses@[k as int]));
        }
        match &clause.condition {
            Some(c) => collect_list(c, out),
            None => {},
        }
        let ghost mid = out.lists();
        collect_list(&clause.body, out);
        proof {
            let head = else_condition_events(*clause);
            assert(mid == absorb(before, head));
            lemma_absorb_concat(before, head, list_events(clause.body));
            assert(s.subrange(0, k + 1).subrange(0, k as int) =~= s.subrange(0, k as int));
            assert(s.subrange(0, k + 1)[k as int] == *clause);
            lemma_absorb_concat(o, elses_events(s.subrange(0, k as int)), head + list_events(clause.body));
            assert(elses_events(s.subrange(0, k as int)) + (head + list_events(clause.body))
                =~= elses_events(s.subrange(0, k as int)) + head + list_events(clause.body));
        }
        k = k + 1;
    }
    proof {
        assert(s.subrange(0, s.len() as int) =~= s);
    }
}

/// Walks the commands of the case items that have one.
fn collect_cases(cases: &Vec<Option<CompoundList>>, out: &mut CollectedCommands)
    ensures
        final(out).lists() == absorb(old(out).lists(), cases_events(cases@)),
    decreases cases, 1int,
{
    let ghost o = out.lists();
    let ghost s = cases@;
    proof {
        assert(s.subrange(0, 0) =~= Seq::<Option<CompoundList>>::empty());
    }
    let mut k: usize = 0;
    while k < cases.len()
        invariant
            k <= cases.len(),
            s == cases@,
            out.lists() == absorb(o, cases_events(s.subrange(0, k as int))),
        decreases cases.len() - k,
    {
        let ghost before = out.lists();
        match &cases[k] {
            Some(list) => {
                proof {
                    assert(decreases_to!(cases => cases@));
                    assert(decreases_to!(cases@ => cases@[k as int]));
                }
                collect_list(list, out);
            },
            None => {
                proof {
                    assert(absorb(before, Seq::<(bool, Seq<char>)>::empty()) == before);
                }
            },
        }
        proof {
            let tail = match s[k as int] {
                Some(l) => list_events(l),
                None => Seq::<(bool, Seq<char>)>::empty(),
            };
            assert(s.subrange(0, k + 1).subrange(0, k as int) =~= s.subrange(0, k as int));
            assert(out.lists() == absorb(before, tail));
            lemma_absorb_concat(o, cases_events(s.subrange(0, k as int)), tail);
        }
        k = k + 1;
    }
    proof {
        assert(s.subrange(0, s.len() as int) =~= s);
    }
}

// ── Where names occur in the tree ────────────────────────────────────

/// The list `l` holds, at any depth (in a pipeline, a function body, a
/// compound command's lists, a process substitution), the event `ev`:
/// `(true, n)` for a simple command whose command word is the literal
/// name `n`, `(false, n)` for a function defined under the literal name
/// `n`.
pub open spec fn occurs_in_list(l: CompoundList, ev: (bool, Seq<char>)) -> bool
    decreases l,
{
    occurs_in_andors(l.0@, ev)
}

pub open spec fn occurs_in_andors(s: Seq<AndOrList>, ev: (bool, Seq<char>)) -> bool
    decreases s,
{
    exists|i: int| 0 <= i < s.len() && occurs_in_andor(#[trigger] s[i], ev)
}

pub open spec fn occurs_in_andor(a: AndOrList, ev: (bool, Seq<char>)) -> bool
    decreases a,
{
    occurs_in_pipeline(a.first, ev) || occurs_in_pipelines(a.additional@, ev)
}

pub open spec fn occurs_in_pipelines(s: Seq<Pipeline>, ev: (bool, Seq<char>)) -> bool
    decreases s,
{
    exists|i: int| 0 <= i < s.len() && occurs_in_pipeline(#[trigger] s[i], ev)
}

pub open spec fn occurs_in_pipeline(p: Pipeline, ev: (bool, Seq<char>)) -> bool
    decreases p,
{
    occurs_in_commands(p.seq@, ev)
}

pub open spec fn occurs_in_commands(s: Seq<Command>, ev: (bool, Seq<char>)) -> bool
    decreases s,
{
    exists|i: int| 0 <= i < s.len() && occurs_in_command(#[trigger] s[i], ev)
}

pub open spec fn occurs_in_command(c: Command, ev: (bool, Seq<char>)) -> bool
    decreases c,
{
    match c {
        Command::Simple(sc) => occurs_in_simple(sc, ev),
        Command::Compound(cc) => occurs_in_compound(cc, ev),
        Command::Function { fname, body } => (ev == (false, fname@) && is_literal_name(fname@)) || occurs_in_compound(body, ev),
        Command::ExtendedTest => false,
    }
}

pub open spec fn occurs_in_simple(sc: SimpleCommand, ev: (bool, Seq<char>)) -> bool
    decreases sc,
{
    ||| sc.word_or_name matches Some(w) && ev == (true, w@) && is_literal_name(w@)
    ||| occurs_in_items(sc.prefix@, ev)
    ||| occurs_in_items(sc.suffix@, ev)
}

pub open spec fn occurs_in_items(s: Seq<CommandItem>, ev: (bool, Seq<char>)) -> bool
    decreases s,
{
    exists|i: int| 0 <= i < s.len() && occurs_in_item(#[trigger] s[i], ev)
}

pub open spec fn occurs_in_item(it: CommandItem, ev: (bool, Seq<char>)) -> bool
    decreases it,
{
    match it {
        CommandItem::ProcessSubstitution(sub) => occurs_in_list(sub, ev),
        CommandItem::Other => false,
    }
}

pub open spec fn occurs_in_elses(s: Seq<ElseClause>, ev: (bool, Seq<char>)) -> bool
    decreases s,
{
    exists|i: int| 0 <= i < s.len() && occurs_in_else(#[trigger] s[i], ev)
}

pub open spec fn occurs_in_else(e: ElseClause, ev: (bool, Seq<char>)) -> bool
    decreases e,
{
    (e.condition matches Some(c) && occurs_in_list(c, ev)) || occurs_in_list(e.body, ev)
}

pub open spec fn occurs_in_cases(s: Seq<Option<CompoundList>>, ev: (bool, Seq<char>)) -> bool
    decreases s,
{
    exists|i: int| 0 <= i < s.len() && occurs_in_case(#[trigger] s[i], ev)
}

pub open spec fn occurs_in_case(c: Option<CompoundList>, ev: (bool, Seq<char>)) -> bool
    decreases c,
{
    match c {
        Some(items) => occurs_in_list(items, ev),
        None => false,
    }
}

pub open spec fn occurs_in_compound(cc: CompoundCommand, ev: (bool, Seq<char>)) -> bool
    decreases cc,
{
    match cc {
        CompoundCommand::Arithmetic => false,
        CompoundCommand::ArithmeticForClause(body) => occurs_in_list(body, ev),
        CompoundCommand::BraceGroup(body) => occurs_in_list(body, ev),
        CompoundCommand::Subshell(body) => occurs_in_list(body, ev),
        CompoundCommand::ForClause(body) => occurs_in_list(body, ev),
        CompoundCommand::CaseClause(items) => occurs_in_cases(items@, ev),
        CompoundCommand::IfClause { condition, then, elses } => {
            ||| occurs_in_list(condition, ev)
            ||| occurs_in_list(then, ev)
            ||| elses matches Some(es) && occurs_in_elses(es@, ev)
        },
        CompoundCommand::WhileClause(c, b) => occurs_in_list(c, ev) || occurs_in_list(b, ev),
        CompoundCommand::UntilClause(c, b) => occurs_in_list(c, ev) || occurs_in_list(b, ev),
        CompoundCommand::Coprocess(b) => occurs_in_command(*b, ev),
    }
}

/// The script holds the event `ev` (see `occurs_in_list`).
pub open spec fn occurs_in_program(p: Program, ev: (bool, Seq<char>)) -> bool {
    exists|i: int| 0 <= i < p.complete_commands@.len() && occurs_in_list(#[trigger] p.complete_commands@[i], ev)
}

proof fn lemma_contains_concat<T>(a: Seq<T>, b: Seq<T>, x: T)
    ensures
        a.contains(x) || b.contains(x) ==> (a + b).contains(x),
{
    if a.contains(x) {
        let k = choose|k: int| 0 <= k < a.len() && a[k] == x;
        assert((a + b)[k] == x);
    } else if b.contains(x) {
        let k = choose|k: int| 0 <= k < b.len() && b[k] == x;
        assert((a + b)[a.len() + k] == x);
    }
}

proof fn lemma_list_finds(l: CompoundList, ev: (bool, Seq<char>))
    requires
        occurs_in_list(l, ev),
    ensures
        list_events(l).contains(ev),
    decreases l,
{
    lemma_andors_finds(l.0@, ev);
}

proof fn lemma_andors_finds(s: Seq<AndOrList>, ev: (bool, Seq<char>))
    requires
        occurs_in_andors(s, ev),
    ensures
        andors_events(s).contains(ev),
    decreases s,
{
    let i = choose|i: int| 0 <= i < s.len() && occurs_in_andor(#[trigger] s[i], ev);
    let init = s.subrange(0, s.len() - 1);
    if i == s.len() - 1 {
        lemma_andor_finds(s[i], ev);
    } else {
        assert(init[i] == s[i]);
        lemma_andors_finds(init, ev);
    }
    lemma_contains_concat(andors_events(init), andor_events(s[s.len() - 1]), ev);
}

proof fn lemma_andor_finds(a: AndOrList, ev: (bool, Seq<char>))
    requires
        occurs_in_andor(a, ev),
    ensures
        andor_events(a).contains(ev),
    decreases a,
{
    if occurs_in_pipeline(a.first, ev) {
        lemma_pipeline_finds(a.first, ev);
    } else {
        lemma_pipelines_finds(a.additional@, ev);
    }
    lemma_contains_concat(pipeline_events(a.first), pipelines_events(a.additional@), ev);
}

proof fn lemma_pipelines_finds(s: Seq<Pipeline>, ev: (bool, Seq<char>))
    requires
        occurs_in_pipelines(s, ev),
    ensures
        pipelines_events(s).contains(ev),
    decreases s,
{
    let i = choose|i: int| 0 <= i < s.len() && occurs_in_pipeline(#[trigger] s[i], ev);
    let init = s.subrange(0, s.len() - 1);
    if i == s.len() - 1 {
        lemma_pipeline_finds(s[i], ev);
    } else {
        assert(init[i] == s[i]);
        lemma_pipelines_finds(init, ev);
    }
    lemma_contains_concat(pipelines_events(init), pipeline_events(s[s.len() - 1]), ev);
}

proof fn lemma_pipeline_finds(p: Pipeline, ev: (bool, Seq<char>))
    requires
        occurs_in_pipeline(p, ev),
    ensures
        pipeline_events(p).contains(ev),
    decreases p,
{
    lemma_commands_finds(p.seq@, ev);
}

proof fn lemma_commands_finds(s: Seq<Command>, ev: (bool, Seq<char>))
    requires
        occurs_in_commands(s, ev),
    ensures
        commands_events(s).contains(ev),
    decreases s,
{
    let i = choose|i: int| 0 <= i < s.len() && occurs_in_command(#[trigger] s[i], ev);
    let init = s.subrange(0, s.len() - 1);
    if i == s.len() - 1 {
        lemma_command_finds(s[i], ev);
    } else {
        assert(init[i] == s[i]);
        lemma_commands_finds(init, ev);
    }
    lemma_contains_concat(commands_events(init), command_events(s[s.len() - 1]), ev);
}

proof fn lemma_command_finds(c: Command, ev: (bool, Seq<char>))
    requires
        occurs_in_command(c, ev),
    ensures
        command_events(c).contains(ev),
    decreases c,
{
    match c {
        Command::Simple(sc) => lemma_simple_finds(sc, ev),
        Command::Compound(cc) => lemma_compound_finds(cc, ev),
        Command::Function { fname, body } => {
            if ev == (false, fname@) && is_literal_name(fname@) {
                assert(seq![(false, fname@)][0] == ev);
            } else {
                lemma_compound_finds(body, ev);
            }
            let own = if is_literal_name(fname@) {
                seq![(false, fname@)]
            } else {
                seq![]
            };
            lemma_contains_concat(own, compound_events(body), ev);
        },
        Command::ExtendedTest => {},
    }
}

proof fn lemma_simple_finds(sc: SimpleCommand, ev: (bool, Seq<char>))
    requires
        occurs_in_simple(sc, ev),
    ensures
        simple_events(sc).contains(ev),
    decreases sc,
{
    let own = simple_own_events(sc);
    let pre = items_events(sc.prefix@);
    let suf = items_events(sc.suffix@);
    if sc.word_or_name matches Some(w) && ev == (true, w@) && is_literal_name(w@) {
        assert(own[0] == ev);
    } else if occurs_in_items(sc.prefix@, ev) {
        lemma_items_finds(sc.prefix@, ev);
    } else {
        lemma_items_finds(sc.suffix@, ev);
    }
    lemma_contains_concat(own, pre, ev);
    lemma_contains_concat(own + pre, suf, ev);
}

proof fn lemma_items_finds(s: Seq<CommandItem>, ev: (bool, Seq<char>))
    requires
        occurs_in_items(s, ev),
    ensures
        items_events(s).contains(ev),
    decreases s,
{
    let i = choose|i: int| 0 <= i < s.len() && occurs_in_item(#[trigger] s[i], ev);
    let init = s.subrange(0, s.len() - 1);
    let last = match s[s.len() - 1] {
        CommandItem::ProcessSubstitution(l) => list_events(l),
        CommandItem::Other => seq![],
    };
    if i == s.len() - 1 {
        if let CommandItem::ProcessSubstitution(l) = s[i] {
            lemma_list_finds(l, ev);
        }
    } else {
        assert(init[i] == s[i]);
        lemma_items_finds(init, ev);
    }
    lemma_contains_concat(items_events(init), last, ev);
}

proof fn lemma_elses_finds(s: Seq<ElseClause>, ev: (bool, Seq<char>))
    requires
        occurs_in_elses(s, ev),
    ensures
        elses_events(s).contains(ev),
    decreases s,
{
    let i = choose|i: int| 0 <= i < s.len() && occurs_in_else(#[trigger] s[i], ev);
    let init = s.subrange(0, s.len() - 1);
    let e = s[s.len() - 1];
    if i == s.len() - 1 {
        match e.condition {
            Some(c) => {
                if occurs_in_list(c, ev) {
                    lemma_list_finds(c, ev);
                } else {
                    lemma_list_finds(e.body, ev);
                }
            },
            None => lemma_list_finds(e.body, ev),
        }
    } else {
        assert(init[i] == s[i]);
        lemma_elses_finds(init, ev);
    }
    lemma_contains_concat(elses_events(init), else_condition_events(e), ev);
    lemma_contains_concat(elses_events(init) + else_condition_events(e), list_events(e.body), ev);
}

proof fn lemma_cases_finds(s: Seq<Option<CompoundList>>, ev: (bool, Seq<char>))
    requires
        occurs_in_cases(s, ev),
    ensures
        cases_events(s).contains(ev),
    decreases s,
{
    let i = choose|i: int| 0 <= i < s.len() && occurs_in_case(#[trigger] s[i], ev);
    let init = s.subrange(0, s.len() - 1);
    let last = match s[s.len() - 1] {
        Some(l) => list_events(l),
        None => seq![],
    };
    if i == s.len() - 1 {
        if let Some(l) = s[i] {
            lemma_list_finds(l, ev);
        }
    } else {
        assert(init[i] == s[i]);
        lemma_cases_finds(init, ev);
    }
    lemma_contains_concat(cases_events(init), last, ev);
}

proof fn lemma_compound_finds(cc: CompoundCommand, ev: (bool, Seq<char>))
    requires
        occurs_in_compound(cc, ev),
    ensures
        compound_events(cc).contains(ev),
    decreases cc,
{
    match cc {
        CompoundCommand::Arithmetic => {},
        CompoundCommand::ArithmeticForClause(body) => lemma_list_finds(body, ev),
        CompoundCommand::BraceGroup(body) => lemma_list_finds(body, ev),
        CompoundCommand::Subshell(body) => lemma_list_finds(body, ev),
        CompoundCommand::ForClause(body) => lemma_list_finds(body, ev),
        CompoundCommand::CaseClause(items) => lemma_cases_finds(items@, ev),
        CompoundCommand::IfClause { condition, then, elses } => {
            if occurs_in_list(condition, ev) {
                lemma_list_finds(condition, ev);
            } else if occurs_in_list(then, ev) {
                lemma_list_finds(then, ev);
            } else if let Some(es) = elses {
                lemma_elses_finds(es@, ev);
            }
            lemma_contains_concat(list_events(condition), list_events(then), ev);
            lemma_contains_concat(list_events(condition) + list_events(then), opt_elses_events(elses), ev);
        },
        CompoundCommand::WhileClause(c, b) => {
            if occurs_in_list(c, ev) {
                lemma_list_finds(c, ev);
            } else {
                lemma_list_finds(b, ev);
            }
            lemma_contains_concat(list_events(c), list_events(b), ev);
        },
        CompoundCommand::UntilClause(c, b) => {
            if occurs_in_list(c, ev) {
                lemma_list_finds(c, ev);
            } else {
                lemma_list_finds(b, ev);
            }
            lemma_contains_concat(list_events(c), list_events(b), ev);
        },
        CompoundCommand::Coprocess(b) => lemma_command_finds(*b, ev),
    }
}

proof fn lemma_lists_finds(s: Seq<CompoundList>, ev: (bool, Seq<char>))
    requires
        exists|i: int| 0 <= i < s.len() && occurs_in_list(#[trigger] s[i], ev),
    ensures
        lists_events(s).contains(ev),
    decreases s.len(),
{
    let i = choose|i: int| 0 <= i < s.len() && occurs_in_list(#[trigger] s[i], ev);
    if i == s.len() - 1 {
        lemma_list_finds(s.last(), ev);
    } else {
        assert(s.drop_last()[i] == s[i]);
        lemma_lists_finds(s.drop_last(), ev);
    }
    lemma_contains_concat(lists_events(s.drop_last()), list_events(s.last()), ev);
}

/// Nothing the script may run is missed: every literal name that is the
/// command word of a simple command anywhere in the script (in any
/// pipeline, function body, compound command's lists, the body of an
/// arithmetic `for`, a coprocess or a process substitution) is among the
/// collected commands.
pub proof fn lemma_every_command_collected(p: Program, n: Seq<char>)
    requires
        occurs_in_program(p, (true, n)),
    ensures
        absorb((seq![], seq![]), program_events(p)).0.contains(n),
{
    lemma_lists_finds(p.complete_commands@, (true, n));
    lemma_absorb_names((seq![], seq![]), program_events(p));
}

/// Every function the script defines under a literal name, at any depth,
/// is among the collected function definitions.
pub proof fn lemma_every_function_collected(p: Program, n: Seq<char>)
    requires
        occurs_in_program(p, (false, n)),
    ensures
        absorb((seq![], seq![]), program_events(p)).1.contains(n),
{
    lemma_lists_finds(p.complete_commands@, (false, n));
    lemma_absorb_names((seq![], seq![]), program_events(p));
}

} // verus!
