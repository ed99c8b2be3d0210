use vstd::prelude::*;

verus! {

/// An error from expanding one string.
#[derive(Debug)]
pub enum InterpError {
    /// A substitution marker was opened but never closed.
    UnterminatedSubstitution,
    /// The command runner failed to launch a command, or its output
    /// was not decodable text; carries the underlying cause.
    SubstitutionExecutionError(String),
}

/// One parsed piece of an input string: a literal character,
/// a variable reference, or a command substitution.
pub enum Item {
    Lit(char),
    Var(Seq<char>),
    Cmd(Seq<char>),
}

/// Character classes for bare variable names: a name starts with a letter
/// or underscore and continues with letters, digits and underscores.
pub open spec fn is_name_start(c: char) -> bool {
    (97 <= c as u32 <= 122) || (65 <= c as u32 <= 90) || c == '_'
}

pub open spec fn is_name_char(c: char) -> bool {
    is_name_start(c) || (48 <= c as u32 <= 57)
}

/// Index of the first occurrence of `c` in `s`, if any.
pub open spec fn find_char(s: Seq<char>, c: char) -> Option<int>
    decreases s.len(),
{
    if s.len() == 0 {
        None
    } else if s[0] == c {
        Some(0int)
    } else {
        match find_char(s.drop_first(), c) {
            None => None,
            Some(i) => Some(i + 1),
        }
    }
}

/// Length of the maximal prefix of `s` made of name characters.
pub open spec fn name_run(s: Seq<char>) -> int
    decreases s.len(),
{
    if s.len() == 0 || !is_name_char(s[0]) {
        0
    } else {
        1 + name_run(s.drop_first())
    }
}

/// The first occurrence found by `find_char` is in bounds, holds `c`,
/// and nothing before it does.
pub proof fn lemma_find_char(s: Seq<char>, c: char)
    ensures
        find_char(s, c) matches Some(j) ==> 0 <= j < s.len() && s[j] == c && (forall|k: int|
            0 <= k < j ==> s[k] != c),
        find_char(s, c) is None ==> forall|k: int| 0 <= k < s.len() ==> s[k] != c,
    decreases s.len(),
{
    if s.len() > 0 && s[0] != c {
        lemma_find_char(s.drop_first(), c);
        match find_char(s, c) {
            Some(j) => {
                assert(s[j] == s.drop_first()[j - 1]);
                assert forall|k: int| 0 <= k < j implies s[k] != c by {
                    if k > 0 {
                        assert(s[k] == s.drop_first()[k - 1]);
                    }
                }
            },
            None => {
                assert forall|k: int| 0 <= k < s.len() implies s[k] != c by {
                    if k > 0 {
                        assert(s[k] == s.drop_first()[k - 1]);
                    }
                }
            },
        }
    }
}

/// The maximal name run is in bounds, covers only name characters, and
/// ends at the string's end or at the first character that is no name
/// character.
pub proof fn lemma_name_run(s: Seq<char>)
    ensures
        0 <= name_run(s) <= s.len(),
        forall|k: int| 0 <= k < name_run(s) ==> is_name_char(s[k]),
        name_run(s) < s.len() ==> !is_name_char(s[name_run(s)]),
        s.len() > 0 && is_name_char(s[0]) ==> name_run(s) >= 1,
    decreases s.len(),
{
    if s.len() > 0 && is_name_char(s[0]) {
        lemma_name_run(s.drop_first());
        assert forall|k: int| 0 <= k < name_run(s) implies is_name_char(s[k]) by {
            if k > 0 {
                assert(s[k] == s.drop_first()[k - 1]);
            }
        }
        if name_run(s) < s.len() {
            assert(s[name_run(s)] == s.drop_first()[name_run(s) - 1]);
        }
    }
}

/// The single left-to-right scan of an input string into items,
/// or `None` if a substitution marker is opened but never closed.
pub open spec fn scan(s: Seq<char>) -> Option<Seq<Item>>
    decreases s.len(),
{
    if s.len() == 0 {
        Some(Seq::empty())
    } else if s[0] == '`' {
        match find_char(s.drop_first(), '`') {
            None => None,
            Some(j) => {
                proof {
                    lemma_find_char(s.drop_first(), '`');
                }
                match scan(s.skip(j + 2)) {
                    None => None,
                    Some(rest) => Some(seq![Item::Cmd(s.subrange(1, j + 1))] + rest),
                }
            },
        }
    } else if s[0] == '$' && s.len() >= 2 && s[1] == '(' {
        match find_char(s.skip(2), ')') {
            None => None,
            Some(j) => {
                proof {
                    lemma_find_char(s.skip(2), ')');
                }
                match scan(s.skip(j + 3)) {
                    None => None,
                    Some(rest) => Some(seq![Item::Cmd(s.subrange(2, j + 2))] + rest),
                }
            },
        }
    } else if s[0] == '$' && s.len() >= 2 && s[1] == '{' {
        match find_char(s.skip(2), '}') {
            None => None,
            Some(j) => {
                proof {
                    lemma_find_char(s.skip(2), '}');
                }
                match scan(s.skip(j + 3)) {
                    None => None,
                    Some(rest) => Some(seq![Item::Var(s.subrange(2, j + 2))] + rest),
                }
            },
        }
    } else if s[0] == '$' && s.len() >= 2 && is_name_start(s[1]) {
        let k = name_run(s.drop_first());
        proof {
            lemma_name_run(s.drop_first());
        }
        match scan(s.skip(1 + k)) {
            None => None,
            Some(rest) => Some(seq![Item::Var(s.subrange(1, 1 + k))] + rest),
        }
    } else {
        match scan(s.drop_first()) {
            None => None,
            Some(rest) => Some(seq![Item::Lit(s[0])] + rest),
        }
    }
}

/// What a variable reference resolves to: the environment's value,
/// or the empty string for an unset name.
pub open spec fn lookup(env: Map<Seq<char>, Seq<char>>, name: Seq<char>) -> Seq<char> {
    if env.contains_key(name) {
        env[name]
    } else {
        Seq::empty()
    }
}

/// Command output with its trailing line terminators removed.
pub open spec fn trim_newlines(s: Seq<char>) -> Seq<char>
    decreases s.len(),
{
    if s.len() > 0 && (s.last() == '\n' || s.last() == '\r') {
        trim_newlines(s.drop_last())
    } else {
        s
    }
}

/// The command texts of a scan, in order of appearance.
pub open spec fn cmds_of(items: Seq<Item>) -> Seq<Seq<char>>
    decreases items.len(),
{
    if items.len() == 0 {
        Seq::empty()
    } else {
        match items[0] {
            Item::Cmd(c) => seq![c] + cmds_of(items.drop_first()),
            _ => cmds_of(items.drop_first()),
        }
    }
}

/// The expanded string: literals verbatim, variables through the
/// environment, and the i-th command substitution spliced in as the
/// trimmed i-th command output.
pub open spec fn splice(
    items: Seq<Item>,
    env: Map<Seq<char>, Seq<char>>,
    outs: Seq<Seq<char>>,
) -> Seq<char>
    decreases items.len(),
{
    if items.len() == 0 {
        Seq::empty()
    } else {
        match items[0] {
            Item::Lit(c) => seq![c] + splice(items.drop_first(), env, outs),
            Item::Var(n) => lookup(env, n) + splice(items.drop_first(), env, outs),
            Item::Cmd(_) => trim_newlines(outs[0]) + splice(
                items.drop_first(),
                env,
                outs.drop_first(),
            ),
        }
    }
}

/// `out` is a possible expansion of `items` under resolver `r`: some
/// sequence of command outputs, each one the runner could have handed
/// back, splices to it.
pub open spec fn spliceable<R: Resolver>(items: Seq<Item>, r: R, out: Seq<char>) -> bool {
    exists|outs: Seq<Seq<char>>|
        #![auto]
        outs.len() == cmds_of(items).len() && (forall|i: int|
            0 <= i < outs.len() ==> r.cmd_ok(cmds_of(items)[i], outs[i])) && out == splice(
            items,
            r.env(),
            outs,
        )
}

/// The scan reaches an unterminated substitution marker without first
/// passing any command substitution: expansion then owes the caller an
/// `UnterminatedSubstitution` error, whatever the command runner does.
pub open spec fn fails_before_any_cmd(s: Seq<char>) -> bool
    decreases s.len(),
{
    if s.len() == 0 {
        false
    } else if s[0] == '`' {
        find_char(s.drop_first(), '`') is None
    } else if s[0] == '$' && s.len() >= 2 && s[1] == '(' {
        find_char(s.skip(2), ')') is None
    } else if s[0] == '$' && s.len() >= 2 && s[1] == '{' {
        match find_char(s.skip(2), '}') {
            None => true,
            Some(j) => {
                proof {
                    lemma_find_char(s.skip(2), '}');
                }
                fails_before_any_cmd(s.skip(j + 3))
            },
        }
    } else if s[0] == '$' && s.len() >= 2 && is_name_start(s[1]) {
        let k = name_run(s.drop_first());
        proof {
            lemma_name_run(s.drop_first());
        }
        fails_before_any_cmd(s.skip(1 + k))
    } else {
        fails_before_any_cmd(s.drop_first())
    }
}

/// Unfolds one item prepended to a scan: what it adds to the command
/// list and to the spliced output.
pub proof fn lemma_splice_cons(
    x: Item,
    rest: Seq<Item>,
    env: Map<Seq<char>, Seq<char>>,
    outs: Seq<Seq<char>>,
)
    ensures
        (seq![x] + rest).drop_first() == rest,
        cmds_of(seq![x] + rest) == (match x {
            Item::Cmd(c) => seq![c] + cmds_of(rest),
            _ => cmds_of(rest),
        }),
        splice(seq![x] + rest, env, outs) == (match x {
            Item::Lit(c) => seq![c] + splice(rest, env, outs),
            Item::Var(n) => lookup(env, n) + splice(rest, env, outs),
            Item::Cmd(_) => trim_newlines(outs[0]) + splice(rest, env, outs.drop_first()),
        }),
{
    assert((seq![x] + rest).drop_first() =~= rest);
}

/// The resolution capabilities the engine depends on: a variable
/// environment and a command runner. The library never reads the real
/// process environment or spawns processes itself; a caller hands in an
/// implementation of this trait.
pub trait Resolver {
    /// The variable environment this resolver answers from. An
    /// implementation that leaves this default claims an empty one.
    open spec fn env(&self) -> Map<Seq<char>, Seq<char>> {
        Map::empty()
    }

    /// What this resolver may return for a command: `cmd_ok(cmd, out)`
    /// holds of every output it can hand back for `cmd`. The default
    /// leaves every outcome possible.
    open spec fn cmd_ok(&self, cmd: Seq<char>, out: Seq<char>) -> bool {
        true
    }

    /// The commands this resolver owes an answer for: on these,
    /// `run_command` must return `Ok`. The default promises none,
    /// which is all that can be said of a runner that spawns real
    /// processes.
    open spec fn cmd_must_succeed(&self, cmd: Seq<char>) -> bool {
        false
    }

    /// The value of a variable, or `None` if it is unset.
    fn lookup_var(&self, name: &str) -> (r: Option<String>)
        ensures
            r matches Some(v) ==> self.env().contains_key(name@) && v@ == self.env()[name@],
            r is None ==> !self.env().contains_key(name@),
    ;

    /// Run one command line and return its captured standard output,
    /// or the cause of a launch or decode failure. A command the
    /// resolver owes an answer for may not fail.
    fn run_command(&self, cmd: &str) -> (r: Result<String, String>)
        ensures
            r matches Ok(out) ==> self.cmd_ok(cmd@, out@),
            self.cmd_must_succeed(cmd@) ==> r is Ok,
    ;
}

pub proof fn lemma_spliceable_empty<R: Resolver>(r: R)
    ensures
        spliceable(Seq::<Item>::empty(), r, Seq::<char>::empty()),
{
    let outs = Seq::<Seq<char>>::empty();
    assert(outs.len() == cmds_of(Seq::<Item>::empty()).len() && (forall|i: int|
        0 <= i < outs.len() ==> r.cmd_ok(cmds_of(Seq::<Item>::empty())[i], outs[i]))
        && Seq::<char>::empty() == splice(Seq::<Item>::empty(), r.env(), outs));
}

pub proof fn lemma_spliceable_lit<R: Resolver>(r: R, c: char, rest: Seq<Item>, out: Seq<char>)
    requires
        spliceable(rest, r, out),
    ensures
        spliceable(seq![Item::Lit(c)] + rest, r, seq![c] + out),
{
    let outs = choose|outs: Seq<Seq<char>>|
        #![auto]
        outs.len() == cmds_of(rest).len() && (forall|i: int|
            0 <= i < outs.len() ==> r.cmd_ok(cmds_of(rest)[i], outs[i])) && out == splice(
            rest,
            r.env(),
            outs,
        );
    lemma_splice_cons(Item::Lit(c), rest, r.env(), outs);
    let items = seq![Item::Lit(c)] + rest;
    assert(outs.len() == cmds_of(items).len() && (forall|i: int|
        0 <= i < outs.len() ==> r.cmd_ok(cmds_of(items)[i], outs[i])) && seq![c] + out == splice(
        items,
        r.env(),
        outs,
    ));
}

pub proof fn lemma_spliceable_var<R: Resolver>(r: R, n: Seq<char>, rest: Seq<Item>, out: Seq<char>)
    requires
        spliceable(rest, r, out),
    ensures
        spliceable(seq![Item::Var(n)] + rest, r, lookup(r.env(), n) + out),
{
    let outs = choose|outs: Seq<Seq<char>>|
        #![auto]
        outs.len() == cmds_of(rest).len() && (forall|i: int|
            0 <= i < outs.len() ==> r.cmd_ok(cmds_of(rest)[i], outs[i])) && out == splice(
            rest,
            r.env(),
            outs,
        );
    lemma_splice_cons(Item::Var(n), rest, r.env(), outs);
    let items = seq![Item::Var(n)] + rest;
    assert(outs.len() == cmds_of(items).len() && (forall|i: int|
        0 <= i < outs.len() ==> r.cmd_ok(cmds_of(items)[i], outs[i])) && lookup(r.env(), n) + out
        == splice(items, r.env(), outs));
}

pub proof fn lemma_spliceable_cmd<R: Resolver>(
    r: R,
    c: Seq<char>,
    rest: Seq<Item>,
    out0: Seq<char>,
    out: Seq<char>,
)
    requires
        r.cmd_ok(c, out0),
        spliceable(rest, r, out),
    ensures
        spliceable(seq![Item::Cmd(c)] + rest, r, trim_newlines(out0) + out),
{
    let outs = choose|outs: Seq<Seq<char>>|
        #![auto]
        outs.len() == cmds_of(rest).len() && (forall|i: int|
            0 <= i < outs.len() ==> r.cmd_ok(cmds_of(rest)[i], outs[i])) && out == splice(
            rest,
            r.env(),
            outs,
        );
    let outs2 = seq![out0] + outs;
    lemma_splice_cons(Item::Cmd(c), rest, r.env(), outs2);
    let items = seq![Item::Cmd(c)] + rest;
    assert(outs2.drop_first() =~= outs);
    assert(cmds_of(items) == seq![c] + cmds_of(rest));
    assert forall|i: int| 0 <= i < outs2.len() implies r.cmd_ok(cmds_of(items)[i], outs2[i]) by {
        if i == 0 {
            assert(cmds_of(items)[0] == c && outs2[0] == out0);
        } else {
            assert(cmds_of(items)[i] == cmds_of(rest)[i - 1]);
            assert(outs2[i] == outs[i - 1]);
        }
    }
    assert(outs2.len() == cmds_of(items).len() && (forall|i: int|
        0 <= i < outs2.len() ==> r.cmd_ok(cmds_of(items)[i], outs2[i])) && trim_newlines(out0) + out
        == splice(items, r.env(), outs2));
}

/// The full contract of expanding the string `t` under resolver `r`:
/// a result splices the scanned items; `UnterminatedSubstitution` comes
/// only from an unclosed marker; an input that scans without any
/// command substitution is owed exactly its deterministic expansion;
/// an unclosed marker never yields a result; an unclosed marker with no
/// command substitution before it is owed `UnterminatedSubstitution`
/// itself; and an input that scans with only commands the resolver
/// owes an answer for is owed a result, so a command-substitution
/// failure can be reported only where the runner was free to fail.
pub open spec fn expand_result_ok<R: Resolver>(
    t: Seq<char>,
    r: R,
    res: Result<String, InterpError>,
) -> bool {
    &&& (res matches Ok(v) ==> (scan(t) matches Some(items) && spliceable(items, r, v@)))
    &&& ((res matches Err(e) && e is UnterminatedSubstitution) ==> scan(t) is None)
    &&& ((scan(t) is Some && cmds_of(scan(t)->Some_0).len() == 0) ==> (res matches Ok(v) && v@
        == splice(scan(t)->Some_0, r.env(), Seq::empty())))
    &&& (scan(t) is None ==> res is Err)
    &&& (fails_before_any_cmd(t) ==> (res matches Err(e) && e is UnterminatedSubstitution))
    &&& ((scan(t) is Some && (forall|i: int|
        #![trigger cmds_of(scan(t)->Some_0)[i]]
        0 <= i < cmds_of(scan(t)->Some_0).len() ==> r.cmd_must_succeed(
            cmds_of(scan(t)->Some_0)[i],
        ))) ==> res is Ok)
}

/// Whether `c` may start a bare variable name.
fn name_start(c: char) -> (b: bool)
    ensures
        b == is_name_start(c),
{
    let u = c as u32;
    (97 <= u && u <= 122) || (65 <= u && u <= 90) || c == '_'
}

/// Whether `c` may continue a bare variable name.
fn name_char(c: char) -> (b: bool)
    ensures
        b == is_name_char(c),
{
    let u = c as u32;
    name_start(c) || (48 <= u && u <= 57)
}

/// First occurrence of `c` in `s` at or after `start`.
fn find_from(s: &str, start: usize, c: char) -> (r: Option<usize>)
    requires
        start <= s@.len(),
    ensures
        r matches Some(j) ==> start <= j < s@.len() && find_char(s@.skip(start as int), c)
            == Some(j as int - start as int),
        r is None ==> find_char(s@.skip(start as int), c) is None,
    decreases s@.len() - start,
{
    let n = s.unicode_len();
    if start == n {
        proof {
            assert(s@.skip(start as int) =~= Seq::<char>::empty());
        }
        None
    } else {
        proof {
            assert(s@.skip(start as int)[0] == s@[start as int]);
        }
        let ch = s.get_char(start);
        if ch == c {
            Some(start)
        } else {
            let r = find_from(s, start + 1, c);
            proof {
                assert(s@.skip(start as int).drop_first() =~= s@.skip(start as int + 1));
            }
            r
        }
    }
}

/// End of the maximal run of name characters starting at `start`.
fn name_run_from(s: &str, start: usize) -> (r: usize)
    requires
        start <= s@.len(),
    ensures
        start <= r <= s@.len(),
        r as int - start as int == name_run(s@.skip(start as int)),
    decreases s@.len() - start,
{
    let n = s.unicode_len();
    if start == n {
        proof {
            assert(s@.skip(start as int) =~= Seq::<char>::empty());
        }
        start
    } else {
        proof {
            assert(s@.skip(start as int)[0] == s@[start as int]);
        }
        let ch = s.get_char(start);
        if name_char(ch) {
            let r = name_run_from(s, start + 1);
            proof {
                assert(s@.skip(start as int).drop_first() =~= s@.skip(start as int + 1));
            }
            r
        } else {
            start
        }
    }
}

/// Index before the trailing line terminators of `s`'s prefix of
/// length `end`.
fn trim_end_index(s: &str, end: usize) -> (r: usize)
    requires
        end <= s@.len(),
    ensures
        r <= end,
        trim_newlines(s@.take(end as int)) == s@.take(r as int),
    decreases end,
{
    if end == 0 {
        proof {
            assert(s@.take(0) =~= Seq::<char>::empty());
        }
        0
    } else {
        let ch = s.get_char(end - 1);
        proof {
            assert(s@.take(end as int).last() == s@[end as int - 1]);
        }
        if ch == '\n' || ch == '\r' {
            proof {
                assert(s@.take(end as int).drop_last() =~= s@.take(end as int - 1));
            }
            trim_end_index(s, end - 1)
        } else {
            end
        }
    }
}

/// The prefix of `s` before its trailing line terminators.
fn trim_trailing(s: &str) -> (r: String)
    ensures
        r@ == trim_newlines(s@),
{
    let n = s.unicode_len();
    let end = trim_end_index(s, n);
    proof {
        assert(s@.take(n as int) =~= s@);
        assert(s@.subrange(0, end as int) =~= s@.take(end as int));
    }
    let sub = s.substring_char(0, end);
    String::from_str(sub)
}

/// Expand the suffix of `s` that starts at `start`.
fn expand_from<R: Resolver>(s: &str, start: usize, r: &R) -> (res: Result<String, InterpError>)
    requires
        start <= s@.len(),
    ensures
        expand_result_ok(s@.skip(start as int), *r, res),
    decreases s@.len() - start,
{
    let ghost t = s@.skip(start as int);
    let n = s.unicode_len();
    if start == n {
        proof {
            assert(t =~= Seq::<char>::empty());
            lemma_spliceable_empty(*r);
        }
        Ok(String::new())
    } else {
        proof {
            assert(t[0] == s@[start as int]);
            if start + 1 < n {
                assert(t[1] == s@[start as int + 1]);
            }
        }
        let c0 = s.get_char(start);
        if c0 == '`' {
            proof {
                assert(t.drop_first() =~= s@.skip(start as int + 1));
            }
            match find_from(s, start + 1, '`') {
                None => Err(InterpError::UnterminatedSubstitution),
                Some(j) => {
                    let ghost jj = j as int - start as int - 1;
                    proof {
                        assert(find_char(t.drop_first(), '`') == Some(jj));
                        lemma_find_char(t.drop_first(), '`');
                        assert(t.subrange(1, jj + 1) =~= s@.subrange(
                            start as int + 1,
                            j as int,
                        ));
                        assert(t.skip(jj + 2) =~= s@.skip(j as int + 1));
                    }
                    let cmd = s.substring_char(start + 1, j);
                    let ghost cmdtext = t.subrange(1, jj + 1);
                    match r.run_command(cmd) {
                        Err(e) => {
                            proof {
                                if scan(t) is Some {
                                    let items = scan(t)->Some_0;
                                    let rest_items = scan(t.skip(jj + 2))->Some_0;
                                    lemma_splice_cons(
                                        Item::Cmd(cmdtext),
                                        rest_items,
                                        r.env(),
                                        Seq::empty(),
                                    );
                                    assert(cmds_of(items)[0] == cmdtext);
                                }
                            }
                            Err(InterpError::SubstitutionExecutionError(e))
                        },
                        Ok(out) => {
                            match expand_from(s, j + 1, r) {
                                Err(e) => {
                                    proof {
                                        if scan(t) is Some {
                                            let items = scan(t)->Some_0;
                                            let rest_items = scan(t.skip(jj + 2))->Some_0;
                                            lemma_splice_cons(
                                                Item::Cmd(cmdtext),
                                                rest_items,
                                                r.env(),
                                                Seq::empty(),
                                            );
                                            if forall|i: int|
                                                #![trigger cmds_of(items)[i]]
                                                0 <= i < cmds_of(items).len() ==> r.cmd_must_succeed(cmds_of(items)[i]) {
                                                assert forall|i: int|
                                                    #![trigger cmds_of(rest_items)[i]]
                                                    0 <= i < cmds_of(rest_items).len() implies r.cmd_must_succeed(
                                                    cmds_of(rest_items)[i],
                                                ) by {
                                                    assert(cmds_of(items)[i + 1] == cmds_of(rest_items)[i]);
                                                    assert(r.cmd_must_succeed(cmds_of(items)[i + 1]));
                                                }
                                                assert(false);
                                            }
                                        }
                                    }
                                    Err(e)
                                },
                                Ok(rest) => {
                                    let ghost rest_items = scan(t.skip(jj + 2))->Some_0;
                                    proof {
                                        lemma_spliceable_cmd(
                                            *r,
                                            cmdtext,
                                            rest_items,
                                            out@,
                                            rest@,
                                        );
                                        lemma_splice_cons(
                                            Item::Cmd(cmdtext),
                                            rest_items,
                                            r.env(),
                                            Seq::empty(),
                                        );
                                    }
                                    let trimmed = trim_trailing(out.as_str());
                                    Ok(trimmed.concat(rest.as_str()))
                                },
                            }
                        },
                    }
                },
            }
        } else if c0 == '$' && start + 1 < n {
            let c1 = s.get_char(start + 1);
            if c1 == '(' {
                proof {
                    assert(t.skip(2) =~= s@.skip(start as int + 2));
                }
                match find_from(s, start + 2, ')') {
                    None => Err(InterpError::UnterminatedSubstitution),
                    Some(j) => {
                        let ghost jj = j as int - start as int - 2;
                        proof {
                            assert(find_char(t.skip(2), ')') == Some(jj));
                            lemma_find_char(t.skip(2), ')');
                            assert(t.subrange(2, jj + 2) =~= s@.subrange(
                                start as int + 2,
                                j as int,
                            ));
                            assert(t.skip(jj + 3) =~= s@.skip(j as int + 1));
                        }
                        let cmd = s.substring_char(start + 2, j);
                        let ghost cmdtext = t.subrange(2, jj + 2);
                        match r.run_command(cmd) {
                            Err(e) => {
                                proof {
                                    if scan(t) is Some {
                                        let items = scan(t)->Some_0;
                                        let rest_items = scan(t.skip(jj + 3))->Some_0;
                                        lemma_splice_cons(
                                            Item::Cmd(cmdtext),
                                            rest_items,
                                            r.env(),
                                            Seq::empty(),
                                        );
                                        assert(cmds_of(items)[0] == cmdtext);
                                    }
                                }
                                Err(InterpError::SubstitutionExecutionError(e))
                            },
                            Ok(out) => {
                                match expand_from(s, j + 1, r) {
                                    Err(e) => {
                                        proof {
                                            if scan(t) is Some {
                                                let items = scan(t)->Some_0;
                                                let rest_items = scan(t.skip(jj + 3))->Some_0;
                                                lemma_splice_cons(
                                                    Item::Cmd(cmdtext),
                                                    rest_items,
                                                    r.env(),
                                                    Seq::empty(),
                                                );
                                                if forall|i: int|
                                                    #![trigger cmds_of(items)[i]]
                                                    0 <= i < cmds_of(items).len() ==> r.cmd_must_succeed(cmds_of(items)[i]) {
                                                    assert forall|i: int|
                                                        #![trigger cmds_of(rest_items)[i]]
                                                        0 <= i < cmds_of(rest_items).len() implies r.cmd_must_succeed(
                                                        cmds_of(rest_items)[i],
                                                    ) by {
                                                        assert(cmds_of(items)[i + 1] == cmds_of(rest_items)[i]);
                                                        assert(r.cmd_must_succeed(cmds_of(items)[i + 1]));
                                                    }
                                                    assert(false);
                                                }
                                            }
                                        }
                                        Err(e)
                                    },
                                    Ok(rest) => {
                                        let ghost rest_items = scan(t.skip(jj + 3))->Some_0;
                                        proof {
                                            lemma_spliceable_cmd(
                                                *r,
                                                cmdtext,
                                                rest_items,
                                                out@,
                                                rest@,
                                            );
                                            lemma_splice_cons(
                                                Item::Cmd(cmdtext),
                                                rest_items,
                                                r.env(),
                                                Seq::empty(),
                                            );
                                        }
                                        let trimmed = trim_trailing(out.as_str());
                                        Ok(trimmed.concat(rest.as_str()))
                                    },
                                }
                            },
                        }
                    },
                }
            } else if c1 == '{' {
                proof {
                    assert(t.skip(2) =~= s@.skip(start as int + 2));
                }
                match find_from(s, start + 2, '}') {
                    None => Err(InterpError::UnterminatedSubstitution),
                    Some(j) => {
                        let ghost jj = j as int - start as int - 2;
                        proof {
                            assert(find_char(t.skip(2), '}') == Some(jj));
                            lemma_find_char(t.skip(2), '}');
                            assert(t.subrange(2, jj + 2) =~= s@.subrange(
                                start as int + 2,
                                j as int,
                            ));
                            assert(t.skip(jj + 3) =~= s@.skip(j as int + 1));
                        }
                        let name = s.substring_char(start + 2, j);
                        let ghost nametext = t.subrange(2, jj + 2);
                        let val = match r.lookup_var(name) {
                            Some(v) => v,
                            None => String::new(),
                        };
                        proof {
                            assert(val@ == lookup(r.env(), nametext));
                        }
                        match expand_from(s, j + 1, r) {
                            Err(e) => {
                                proof {
                                    if scan(t) is Some {
                                        let rest_items = scan(t.skip(jj + 3))->Some_0;
                                        lemma_splice_cons(
                                            Item::Var(nametext),
                                            rest_items,
                                            r.env(),
                                            Seq::empty(),
                                        );
                                    }
                                }
                                Err(e)
                            },
                            Ok(rest) => {
                                let ghost rest_items = scan(t.skip(jj + 3))->Some_0;
                                proof {
                                    lemma_spliceable_var(*r, nametext, rest_items, rest@);
                                    lemma_splice_cons(
                                        Item::Var(nametext),
                                        rest_items,
                                        r.env(),
                                        Seq::empty(),
                                    );
                                }
                                Ok(val.concat(rest.as_str()))
                            },
                        }
                    },
                }
            } else if name_start(c1) {
                proof {
                    assert(t.drop_first() =~= s@.skip(start as int + 1));
                    lemma_name_run(t.drop_first());
                }
                let e = name_run_from(s, start + 1);
                let ghost k = name_run(t.drop_first());
                proof {
                    assert(e as int == start as int + 1 + k);
                    assert(k >= 1);
                    assert(t.subrange(1, 1 + k) =~= s@.subrange(start as int + 1, e as int));
                    assert(t.skip(1 + k) =~= s@.skip(e as int));
                }
                let name = s.substring_char(start + 1, e);
                let ghost nametext = t.subrange(1, 1 + k);
                let val = match r.lookup_var(name) {
                    Some(v) => v,
                    None => String::new(),
                };
                proof {
                    assert(val@ == lookup(r.env(), nametext));
                }
                match expand_from(s, e, r) {
                    Err(err) => {
                        proof {
                            if scan(t) is Some {
                                let rest_items = scan(t.skip(1 + k))->Some_0;
                                lemma_splice_cons(
                                    Item::Var(nametext),
                                    rest_items,
                                    r.env(),
                                    Seq::empty(),
                                );
                            }
                        }
                        Err(err)
                    },
                    Ok(rest) => {
                        let ghost rest_items = scan(t.skip(1 + k))->Some_0;
                        proof {
                            lemma_spliceable_var(*r, nametext, rest_items, rest@);
                            lemma_splice_cons(
                                Item::Var(nametext),
                                rest_items,
                                r.env(),
                                Seq::empty(),
                            );
                        }
                        Ok(val.concat(rest.as_str()))
                    },
                }
            } else {
                proof {
                    assert(t.drop_first() =~= s@.skip(start as int + 1));
                    assert(t.subrange(0, 1) =~= seq![t[0]]);
                    assert(s@.subrange(start as int, start as int + 1) =~= seq![t[0]]);
                }
                let lit = s.substring_char(start, start + 1);
                match expand_from(s, start + 1, r) {
                    Err(e) => {
                        proof {
                            if scan(t) is Some {
                                let rest_items = scan(t.drop_first())->Some_0;
                                lemma_splice_cons(
                                    Item::Lit(t[0]),
                                    rest_items,
                                    r.env(),
                                    Seq::empty(),
                                );
                            }
                        }
                        Err(e)
                    },
                    Ok(rest) => {
                        let ghost rest_items = scan(t.drop_first())->Some_0;
                        proof {
                            lemma_spliceable_lit(*r, t[0], rest_items, rest@);
                            lemma_splice_cons(
                                Item::Lit(t[0]),
                                rest_items,
                                r.env(),
                                Seq::empty(),
                            );
                        }
                        Ok(String::from_str(lit).concat(rest.as_str()))
                    },
                }
            }
        } else {
            proof {
                assert(t.drop_first() =~= s@.skip(start as int + 1));
                assert(s@.subrange(start as int, start as int + 1) =~= seq![t[0]]);
            }
            let lit = s.substring_char(start, start + 1);
            match expand_from(s, start + 1, r) {
                Err(e) => {
                    proof {
                        if scan(t) is Some {
                            let rest_items = scan(t.drop_first())->Some_0;
                            lemma_splice_cons(
                                Item::Lit(t[0]),
                                rest_items,
                                r.env(),
                                Seq::empty(),
                            );
                        }
                    }
                    Err(e)
                },
                Ok(rest) => {
                    let ghost rest_items = scan(t.drop_first())->Some_0;
                    proof {
                        lemma_spliceable_lit(*r, t[0], rest_items, rest@);
                        lemma_splice_cons(Item::Lit(t[0]), rest_items, r.env(), Seq::empty());
                    }
                    Ok(String::from_str(lit).concat(rest.as_str()))
                },
            }
        }
    }
}

/// Expand every substitution marker in `raw`: `$NAME` and `${NAME}`
/// through the resolver's variable environment (an unset name expands
/// to the empty string), backquoted and `$( ... )` forms by running the
/// enclosed command line and splicing in its output with trailing line
/// terminators trimmed. The first failure aborts the whole expansion.
pub fn shell_interpolate<R: Resolver>(raw: &str, resolver: &R) -> (res: Result<
    String,
    InterpError,
>)
    ensures
        expand_result_ok(raw@, *resolver, res),
{
    proof {
        assert(raw@.skip(0) =~= raw@);
    }
    expand_from(raw, 0, resolver)
}

/// With no command substitution among the items, expansion is
/// deterministic: any two possible expansions are the same string.
pub proof fn lemma_det_expansion_unique<R: Resolver>(
    items: Seq<Item>,
    r: R,
    out1: Seq<char>,
    out2: Seq<char>,
)
    requires
        cmds_of(items).len() == 0,
        spliceable(items, r, out1),
        spliceable(items, r, out2),
    ensures
        out1 == out2,
{
    let o1 = choose|outs: Seq<Seq<char>>|
        #![auto]
        outs.len() == cmds_of(items).len() && (forall|i: int|
            0 <= i < outs.len() ==> r.cmd_ok(cmds_of(items)[i], outs[i])) && out1 == splice(
            items,
            r.env(),
            outs,
        );
    let o2 = choose|outs: Seq<Seq<char>>|
        #![auto]
        outs.len() == cmds_of(items).len() && (forall|i: int|
            0 <= i < outs.len() ==> r.cmd_ok(cmds_of(items)[i], outs[i])) && out2 == splice(
            items,
            r.env(),
            outs,
        );
    assert(o1 =~= Seq::<Seq<char>>::empty());
    assert(o2 =~= Seq::<Seq<char>>::empty());
}

/// Under a resolver whose runner can hand back only one output per
/// command, expansion is deterministic even with command
/// substitutions present: any two possible expansions are the same
/// string.
pub proof fn lemma_functional_expansion_unique<R: Resolver>(
    items: Seq<Item>,
    r: R,
    out1: Seq<char>,
    out2: Seq<char>,
)
    requires
        forall|c: Seq<char>, o1: Seq<char>, o2: Seq<char>|
            #![trigger r.cmd_ok(c, o1), r.cmd_ok(c, o2)]
            r.cmd_ok(c, o1) && r.cmd_ok(c, o2) ==> o1 == o2,
        spliceable(items, r, out1),
        spliceable(items, r, out2),
    ensures
        out1 == out2,
{
    let o1 = choose|outs: Seq<Seq<char>>|
        #![auto]
        outs.len() == cmds_of(items).len() && (forall|i: int|
            0 <= i < outs.len() ==> r.cmd_ok(cmds_of(items)[i], outs[i])) && out1 == splice(
            items,
            r.env(),
            outs,
        );
    let o2 = choose|outs: Seq<Seq<char>>|
        #![auto]
        outs.len() == cmds_of(items).len() && (forall|i: int|
            0 <= i < outs.len() ==> r.cmd_ok(cmds_of(items)[i], outs[i])) && out2 == splice(
            items,
            r.env(),
            outs,
        );
    assert forall|i: int| 0 <= i < o1.len() implies o1[i] == o2[i] by {
        assert(r.cmd_ok(cmds_of(items)[i], o1[i]) && r.cmd_ok(cmds_of(items)[i], o2[i]));
    }
    assert(o1 =~= o2);
}

/// For a fixed resolver whose runner is owed success on every command
/// of the scan and can hand back only one output per command, the
/// engine's result is fully determined: every result the contract
/// admits is `Ok` of one and the same string, so two calls on the same
/// input return equal results.
pub proof fn lemma_expansion_deterministic<R: Resolver>(
    t: Seq<char>,
    r: R,
    res1: Result<String, InterpError>,
    res2: Result<String, InterpError>,
)
    requires
        expand_result_ok(t, r, res1),
        expand_result_ok(t, r, res2),
        scan(t) is Some,
        forall|i: int|
            #![trigger cmds_of(scan(t)->Some_0)[i]]
            0 <= i < cmds_of(scan(t)->Some_0).len() ==> r.cmd_must_succeed(
                cmds_of(scan(t)->Some_0)[i],
            ),
        forall|c: Seq<char>, o1: Seq<char>, o2: Seq<char>|
            #![trigger r.cmd_ok(c, o1), r.cmd_ok(c, o2)]
            r.cmd_ok(c, o1) && r.cmd_ok(c, o2) ==> o1 == o2,
    ensures
        res1 matches Ok(v1) && res2 matches Ok(v2) && v1@ == v2@,
{
    let items = scan(t)->Some_0;
    lemma_functional_expansion_unique(items, r, res1->Ok_0@, res2->Ok_0@);
}

/// A string without `$` and without backticks scans to its own
/// characters, names no command, and expands to itself under every
/// environment.
pub proof fn lemma_no_markers_expands_to_itself(s: Seq<char>, env: Map<Seq<char>, Seq<char>>)
    requires
        forall|i: int| 0 <= i < s.len() ==> s[i] != '$' && s[i] != '`',
    ensures
        scan(s) is Some,
        cmds_of(scan(s)->Some_0).len() == 0,
        splice(scan(s)->Some_0, env, Seq::empty()) == s,
    decreases s.len(),
{
    if s.len() == 0 {
        assert(splice(scan(s)->Some_0, env, Seq::empty()) =~= s);
    } else {
        assert(forall|i: int| 0 <= i < s.len() - 1 ==> s.drop_first()[i] == s[i + 1]);
        lemma_no_markers_expands_to_itself(s.drop_first(), env);
        let rest_items = scan(s.drop_first())->Some_0;
        lemma_splice_cons(Item::Lit(s[0]), rest_items, env, Seq::empty());
        assert(seq![s[0]] + s.drop_first() =~= s);
    }
}

/// A string of name characters is one whole name run.
pub proof fn lemma_name_run_all(s: Seq<char>)
    requires
        forall|i: int| 0 <= i < s.len() ==> is_name_char(s[i]),
    ensures
        name_run(s) == s.len(),
    decreases s.len(),
{
    if s.len() > 0 {
        assert(forall|i: int| 0 <= i < s.len() - 1 ==> s.drop_first()[i] == s[i + 1]);
        lemma_name_run_all(s.drop_first());
    }
}

/// Appending `c` to a string without `c` puts its first occurrence at
/// the very end.
pub proof fn lemma_find_char_append(s: Seq<char>, c: char)
    requires
        forall|i: int| 0 <= i < s.len() ==> s[i] != c,
    ensures
        find_char(s + seq![c], c) == Some(s.len() as int),
    decreases s.len(),
{
    if s.len() == 0 {
        assert(s + seq![c] =~= seq![c]);
        assert(find_char(seq![c], c) == Some(0int));
    } else {
        assert(forall|i: int| 0 <= i < s.len() - 1 ==> s.drop_first()[i] == s[i + 1]);
        lemma_find_char_append(s.drop_first(), c);
        assert((s + seq![c]).drop_first() =~= s.drop_first() + seq![c]);
        assert((s + seq![c])[0] == s[0]);
    }
}

/// `$NAME` and `${NAME}` scan to the same single variable reference,
/// and both expand to the environment's value for `NAME` — the empty
/// string when the name is unset.
pub proof fn lemma_var_forms_agree(name: Seq<char>, env: Map<Seq<char>, Seq<char>>)
    requires
        name.len() > 0,
        is_name_start(name[0]),
        forall|i: int| 0 <= i < name.len() ==> is_name_char(name[i]),
    ensures
        scan(seq!['$'] + name) == Some(seq![Item::Var(name)]),
        scan(seq!['$', '{'] + name + seq!['}']) == Some(seq![Item::Var(name)]),
        cmds_of(seq![Item::Var(name)]).len() == 0,
        splice(seq![Item::Var(name)], env, Seq::empty()) == lookup(env, name),
{
    let one = seq![Item::Var(name)];
    let none = Seq::<Item>::empty();
    assert(scan(Seq::<char>::empty()) == Some(Seq::<Item>::empty()));
    lemma_splice_cons(Item::Var(name), none, env, Seq::empty());
    assert(one =~= seq![Item::Var(name)] + none);
    assert(lookup(env, name) + splice(none, env, Seq::empty()) =~= lookup(env, name));

    let s = seq!['$'] + name;
    assert(s[0] == '$' && s.len() >= 2 && s[1] == name[0]);
    assert(s.drop_first() =~= name);
    lemma_name_run_all(name);
    assert(s.subrange(1, 1 + name.len() as int) =~= name);
    assert(s.skip(1 + name.len() as int) =~= Seq::<char>::empty());
    assert(scan(s) == Some(seq![Item::Var(name)] + Seq::<Item>::empty()));

    let s2 = seq!['$', '{'] + name + seq!['}'];
    assert(s2[0] == '$' && s2.len() >= 2 && s2[1] == '{');
    assert(s2.skip(2) =~= name + seq!['}']);
    assert(forall|i: int| 0 <= i < name.len() ==> name[i] != '}');
    lemma_find_char_append(name, '}');
    assert(s2.subrange(2, 2 + name.len() as int) =~= name);
    assert(s2.skip(name.len() as int + 3) =~= Seq::<char>::empty());
    assert(scan(s2) == Some(seq![Item::Var(name)] + Seq::<Item>::empty()));
}

/// Trimming strips trailing line terminators one at a time, and leaves
/// a string that ends in no line terminator unchanged.
pub proof fn lemma_trim_newlines(s: Seq<char>)
    ensures
        trim_newlines(s.push('\n')) == trim_newlines(s),
        trim_newlines(s.push('\r')) == trim_newlines(s),
        s.len() == 0 || (s.last() != '\n' && s.last() != '\r') ==> trim_newlines(s) == s,
{
    assert(s.push('\n').drop_last() =~= s);
    assert(s.push('\r').drop_last() =~= s);
}

/// Character-for-character equality of two string slices.
fn str_eq(a: &str, b: &str) -> (r: bool)
    ensures
        r == (a@ == b@),
{
    let na = a.unicode_len();
    let nb = b.unicode_len();
    if na != nb {
        proof {
            if a@ == b@ {
                assert(a@.len() == b@.len());
            }
        }
        false
    } else {
        let mut i: usize = 0;
        while i < na
            invariant
                0 <= i <= na,
                na == a@.len(),
                nb == b@.len(),
                na == nb,
                forall|k: int| 0 <= k < i ==> a@[k] == b@[k],
            decreases na - i,
        {
            let ca = a.get_char(i);
            let cb = b.get_char(i);
            if ca != cb {
                proof {
                    if a@ == b@ {
                        assert(a@[i as int] == b@[i as int]);
                    }
                }
                return false;
            }
            i += 1;
        }
        proof {
            assert(a@ =~= b@);
        }
        true
    }
}

/// First value paired with `key` in `entries`, if any.
pub open spec fn assoc(entries: Seq<(String, String)>, key: Seq<char>) -> Option<Seq<char>>
    decreases entries.len(),
{
    if entries.len() == 0 {
        None
    } else if entries[0].0@ == key {
        Some(entries[0].1@)
    } else {
        assoc(entries.drop_first(), key)
    }
}

fn assoc_at(entries: &Vec<(String, String)>, i: usize, key: &str) -> (r: Option<String>)
    requires
        i <= entries@.len(),
    ensures
        r matches Some(v) ==> assoc(entries@.skip(i as int), key@) == Some(v@),
        r is None ==> assoc(entries@.skip(i as int), key@) is None,
    decreases entries@.len() - i,
{
    if i == entries.len() {
        proof {
            assert(entries@.skip(i as int) =~= Seq::<(String, String)>::empty());
        }
        None
    } else {
        proof {
            assert(entries@.skip(i as int)[0] == entries@[i as int]);
        }
        let pair = &entries[i];
        if str_eq(pair.0.as_str(), key) {
            Some(pair.1.clone())
        } else {
            let r = assoc_at(entries, i + 1, key);
            proof {
                assert(entries@.skip(i as int).drop_first() =~= entries@.skip(i as int + 1));
            }
            r
        }
    }
}

/// A resolver answering from fixed tables: variable values and command
/// outputs, each looked up by the exact text handed in. Expansion
/// through it is fully deterministic, so callers that want no live
/// environment and no subprocesses use it.
#[derive(Debug)]
pub struct MapResolver {
    pub vars: Vec<(String, String)>,
    pub cmds: Vec<(String, String)>,
}

impl Resolver for MapResolver {
    open spec fn env(&self) -> Map<Seq<char>, Seq<char>> {
        Map::new(
            |k: Seq<char>| assoc(self.vars@, k) is Some,
            |k: Seq<char>| assoc(self.vars@, k)->Some_0,
        )
    }

    open spec fn cmd_ok(&self, cmd: Seq<char>, out: Seq<char>) -> bool {
        assoc(self.cmds@, cmd) == Some(out)
    }

    open spec fn cmd_must_succeed(&self, cmd: Seq<char>) -> bool {
        assoc(self.cmds@, cmd) is Some
    }

    fn lookup_var(&self, name: &str) -> (r: Option<String>) {
        let r = assoc_at(&self.vars, 0, name);
        proof {
            assert(self.vars@.skip(0) =~= self.vars@);
        }
        r
    }

    fn run_command(&self, cmd: &str) -> (r: Result<String, String>) {
        let looked = assoc_at(&self.cmds, 0, cmd);
        proof {
            assert(self.cmds@.skip(0) =~= self.cmds@);
        }
        match looked {
            Some(v) => Ok(v),
            None => Err(String::from_str("command not in the resolver's table")),
        }
    }
}

} // verus!
