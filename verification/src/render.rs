use vstd::prelude::*;

use crate::interp::InterpError;
use crate::interp::Resolver;
use crate::interp::cmds_of;
use crate::interp::scan;
use crate::interp::shell_interpolate;
use crate::interp::spliceable;

verus! {

/// The declarative description of one container invocation. Every
/// optional field that is absent contributes no flag; every string a
/// field carries runs through the interpolation engine before it is
/// rendered.
#[derive(Debug)]
pub struct DockerRun {
    pub image: String,
    pub help: Option<String>,
    pub interactive: Option<bool>,
    pub tty: Option<bool>,
    pub command: Option<Vec<String>>,
    pub entrypoint: Option<String>,
    pub envs: Option<Vec<(String, String)>>,
    pub env_file: Option<String>,
    pub network: Option<String>,
    pub ports: Option<Vec<String>>,
    pub volumes: Option<Vec<String>>,
    pub user: Option<String>,
    pub extra_flags: Option<Vec<String>>,
}

/// An error from assembling or launching one invocation.
#[derive(Debug)]
pub enum BuildError {
    /// Interpolating the named field failed; carries the field's name
    /// and the interpolation error.
    Interpolation(String, InterpError),
    /// The launcher could not spawn the tool; carries the cause.
    Launch(String),
}

/// One planned token: either fixed text, or the expansion of a source
/// string.
pub enum Piece {
    Fixed(Seq<char>),
    Exp(Seq<char>),
}

/// The views of a list of rendered tokens.
pub open spec fn toks_of(v: Seq<String>) -> Seq<Seq<char>> {
    v.map_values(|s: String| s@)
}

/// Flag-and-value pieces: `flag e` for each entry `e`, in order.
pub open spec fn flag_pairs(flag: Seq<char>, es: Seq<String>) -> Seq<Piece>
    decreases es.len(),
{
    if es.len() == 0 {
        Seq::empty()
    } else {
        seq![Piece::Fixed(flag), Piece::Exp(es[0]@)] + flag_pairs(flag, es.drop_first())
    }
}

/// One expanded token per entry, in order.
pub open spec fn plains(es: Seq<String>) -> Seq<Piece>
    decreases es.len(),
{
    if es.len() == 0 {
        Seq::empty()
    } else {
        seq![Piece::Exp(es[0]@)] + plains(es.drop_first())
    }
}

/// `-e k=v` pieces: the key and value are joined first, and the joined
/// string is what gets expanded.
pub open spec fn env_pairs(es: Seq<(String, String)>) -> Seq<Piece>
    decreases es.len(),
{
    if es.len() == 0 {
        Seq::empty()
    } else {
        seq![Piece::Fixed("-e"@), Piece::Exp(es[0].0@ + "="@ + es[0].1@)] + env_pairs(
            es.drop_first(),
        )
    }
}

pub open spec fn opt_pieces(flag: Seq<char>, v: Option<String>) -> Seq<Piece> {
    match v {
        None => Seq::empty(),
        Some(s) => seq![Piece::Fixed(flag), Piece::Exp(s@)],
    }
}

pub open spec fn net_pieces(v: Option<String>) -> Seq<Piece> {
    match v {
        None => Seq::empty(),
        Some(n) => seq![Piece::Exp("--network="@ + n@)],
    }
}

pub open spec fn list_pieces(flag: Seq<char>, v: Option<Vec<String>>) -> Seq<Piece> {
    match v {
        None => Seq::empty(),
        Some(es) => flag_pairs(flag, es@),
    }
}

pub open spec fn plain_pieces(v: Option<Vec<String>>) -> Seq<Piece> {
    match v {
        None => Seq::empty(),
        Some(es) => plains(es@),
    }
}

pub open spec fn env_pieces(v: Option<Vec<(String, String)>>) -> Seq<Piece> {
    match v {
        None => Seq::empty(),
        Some(es) => env_pairs(es@),
    }
}

/// The full flag plan of one invocation, in the exact order the tool
/// receives its tokens: the fixed `run --rm` prefix, the optional
/// flags, the image, and the trailing command arguments.
pub open spec fn plan(d: DockerRun) -> Seq<Piece> {
    seq![Piece::Fixed("run"@), Piece::Fixed("--rm"@)] + opt_pieces("--entrypoint"@, d.entrypoint)
        + env_pieces(d.envs) + opt_pieces("--env-file"@, d.env_file) + net_pieces(d.network)
        + list_pieces("-p"@, d.ports) + list_pieces("-v"@, d.volumes) + opt_pieces("-u"@, d.user)
        + plain_pieces(d.extra_flags) + seq![Piece::Exp(d.image@)] + plain_pieces(d.command)
}

/// The token list `toks` renders the plan `p` under resolver `r`:
/// fixed pieces verbatim, expanded pieces by a possible expansion of
/// their source string.
pub open spec fn renders<R: Resolver>(p: Seq<Piece>, r: R, toks: Seq<Seq<char>>) -> bool {
    &&& toks.len() == p.len()
    &&& forall|i: int|
        #![trigger p[i]]
        0 <= i < p.len() ==> (match p[i] {
            Piece::Fixed(x) => toks[i] == x,
            Piece::Exp(src) => (scan(src) is Some && spliceable(scan(src)->Some_0, r, toks[i])),
        })
}

/// The source string scans cleanly and asks for no command
/// substitution: its expansion is deterministic and owed.
pub open spec fn det_str(s: Seq<char>) -> bool {
    scan(s) is Some && cmds_of(scan(s)->Some_0).len() == 0
}

pub open spec fn det_opt(v: Option<String>) -> bool {
    v matches Some(s) ==> det_str(s@)
}

pub open spec fn det_list(v: Option<Vec<String>>) -> bool {
    v matches Some(es) ==> forall|i: int| 0 <= i < es@.len() ==> det_str(es@[i]@)
}

pub open spec fn det_envs(v: Option<Vec<(String, String)>>) -> bool {
    v matches Some(es) ==> forall|i: int|
        0 <= i < es@.len() ==> det_str(es@[i].0@ + "="@ + es@[i].1@)
}

/// Every string the spec renders scans cleanly and names no command
/// substitution: rendering is then owed to succeed.
pub open spec fn det_spec(d: DockerRun) -> bool {
    &&& det_str(d.image@)
    &&& det_opt(d.entrypoint)
    &&& det_envs(d.envs)
    &&& det_opt(d.env_file)
    &&& (d.network matches Some(n) ==> det_str("--network="@ + n@))
    &&& det_list(d.ports)
    &&& det_list(d.volumes)
    &&& det_opt(d.user)
    &&& det_list(d.extra_flags)
    &&& det_list(d.command)
}

/// `src` can draw the error `e` from the engine: an
/// `UnterminatedSubstitution` needs a scan that fails, any other
/// interpolation error needs a string that is not command-free.
pub open spec fn fails_with(src: Seq<char>, e: InterpError) -> bool {
    if e is UnterminatedSubstitution {
        scan(src) is None
    } else {
        !det_str(src)
    }
}

/// Some string of `srcs` can draw the error `e` from the engine.
pub open spec fn source_fails(srcs: Seq<Seq<char>>, e: InterpError) -> bool {
    exists|k: int| 0 <= k < srcs.len() && fails_with(#[trigger] srcs[k], e)
}

/// The strings an optional single-valued field hands to the engine.
pub open spec fn opt_sources(v: Option<String>) -> Seq<Seq<char>> {
    match v {
        None => Seq::empty(),
        Some(s) => seq![s@],
    }
}

/// The strings an optional list field hands to the engine.
pub open spec fn list_sources(v: Option<Vec<String>>) -> Seq<Seq<char>> {
    match v {
        None => Seq::empty(),
        Some(es) => toks_of(es@),
    }
}

/// The joined `k=v` strings the environment field hands to the engine.
pub open spec fn env_sources(v: Option<Vec<(String, String)>>) -> Seq<Seq<char>> {
    match v {
        None => Seq::empty(),
        Some(es) => es@.map_values(|kv: (String, String)| kv.0@ + "="@ + kv.1@),
    }
}

/// The single combined string the network field hands to the engine.
pub open spec fn net_sources(v: Option<String>) -> Seq<Seq<char>> {
    match v {
        None => Seq::empty(),
        Some(n) => seq!["--network="@ + n@],
    }
}

/// The field name `f` carried by an interpolation error names a field
/// of `d` that really hands the engine a string able to draw the
/// error `e`: an error never names a blameless field.
pub open spec fn faulted_field(d: DockerRun, f: Seq<char>, e: InterpError) -> bool {
    ||| (f == "entrypoint"@ && source_fails(opt_sources(d.entrypoint), e))
    ||| (f == "envs"@ && source_fails(env_sources(d.envs), e))
    ||| (f == "env_file"@ && source_fails(opt_sources(d.env_file), e))
    ||| (f == "network"@ && source_fails(net_sources(d.network), e))
    ||| (f == "ports"@ && source_fails(list_sources(d.ports), e))
    ||| (f == "volumes"@ && source_fails(list_sources(d.volumes), e))
    ||| (f == "user"@ && source_fails(opt_sources(d.user), e))
    ||| (f == "extra_flags"@ && source_fails(list_sources(d.extra_flags), e))
    ||| (f == "image"@ && source_fails(seq![d.image@], e))
    ||| (f == "command"@ && source_fails(list_sources(d.command), e))
}

/// No piece of `p` asks for a command substitution.
pub open spec fn det_pieces(p: Seq<Piece>) -> bool {
    forall|i: int|
        #![trigger p[i]]
        0 <= i < p.len() ==> (p[i] matches Piece::Exp(src) ==> det_str(src))
}

/// Rendering a plan with no command substitution is deterministic:
/// two token lists that render it are equal.
pub proof fn lemma_det_rendering_unique<R: Resolver>(
    p: Seq<Piece>,
    r: R,
    t1: Seq<Seq<char>>,
    t2: Seq<Seq<char>>,
)
    requires
        det_pieces(p),
        renders(p, r, t1),
        renders(p, r, t2),
    ensures
        t1 == t2,
{
    assert forall|i: int| 0 <= i < t1.len() implies t1[i] == t2[i] by {
        match p[i] {
            Piece::Fixed(_) => {},
            Piece::Exp(src) => {
                crate::interp::lemma_det_expansion_unique(scan(src)->Some_0, r, t1[i], t2[i]);
            },
        }
    }
    assert(t1 =~= t2);
}

proof fn lemma_det_pieces_concat(p1: Seq<Piece>, p2: Seq<Piece>)
    requires
        det_pieces(p1),
        det_pieces(p2),
    ensures
        det_pieces(p1 + p2),
{
    assert forall|i: int| #![trigger (p1 + p2)[i]] 0 <= i < (p1 + p2).len() implies ((p1 + p2)[i]
        matches Piece::Exp(src) ==> det_str(src)) by {
        if i < p1.len() {
            assert((p1 + p2)[i] == p1[i]);
        } else {
            assert((p1 + p2)[i] == p2[i - p1.len()]);
        }
    }
}

proof fn lemma_det_pieces_flag_pairs(flag: Seq<char>, es: Seq<String>)
    requires
        forall|i: int| 0 <= i < es.len() ==> det_str(es[i]@),
    ensures
        det_pieces(flag_pairs(flag, es)),
    decreases es.len(),
{
    if es.len() > 0 {
        assert(forall|i: int| 0 <= i < es.len() - 1 ==> es.drop_first()[i] == es[i + 1]);
        lemma_det_pieces_flag_pairs(flag, es.drop_first());
        lemma_det_pieces_concat(
            seq![Piece::Fixed(flag), Piece::Exp(es[0]@)],
            flag_pairs(flag, es.drop_first()),
        );
    }
}

proof fn lemma_det_pieces_plains(es: Seq<String>)
    requires
        forall|i: int| 0 <= i < es.len() ==> det_str(es[i]@),
    ensures
        det_pieces(plains(es)),
    decreases es.len(),
{
    if es.len() > 0 {
        assert(forall|i: int| 0 <= i < es.len() - 1 ==> es.drop_first()[i] == es[i + 1]);
        lemma_det_pieces_plains(es.drop_first());
        lemma_det_pieces_concat(seq![Piece::Exp(es[0]@)], plains(es.drop_first()));
    }
}

proof fn lemma_det_pieces_env_pairs(es: Seq<(String, String)>)
    requires
        forall|i: int| 0 <= i < es.len() ==> det_str(es[i].0@ + "="@ + es[i].1@),
    ensures
        det_pieces(env_pairs(es)),
    decreases es.len(),
{
    if es.len() > 0 {
        assert(forall|i: int| 0 <= i < es.len() - 1 ==> es.drop_first()[i] == es[i + 1]);
        lemma_det_pieces_env_pairs(es.drop_first());
        lemma_det_pieces_concat(
            seq![Piece::Fixed("-e"@), Piece::Exp(es[0].0@ + "="@ + es[0].1@)],
            env_pairs(es.drop_first()),
        );
    }
}

/// A specification whose strings all scan without command
/// substitutions renders to exactly one token list: for a fixed
/// environment, the assembled invocation is unique.
pub proof fn lemma_det_spec_unique_rendering<R: Resolver>(
    d: DockerRun,
    r: R,
    t1: Seq<Seq<char>>,
    t2: Seq<Seq<char>>,
)
    requires
        det_spec(d),
        renders(plan(d), r, t1),
        renders(plan(d), r, t2),
    ensures
        t1 == t2,
{
    let prefix = seq![Piece::Fixed("run"@), Piece::Fixed("--rm"@)];
    assert(det_pieces(prefix));
    let mut done = prefix;

    assert(det_pieces(opt_pieces("--entrypoint"@, d.entrypoint)));
    lemma_det_pieces_concat(done, opt_pieces("--entrypoint"@, d.entrypoint));
    done = done + opt_pieces("--entrypoint"@, d.entrypoint);

    if d.envs is Some {
        lemma_det_pieces_env_pairs(d.envs->Some_0@);
    }
    lemma_det_pieces_concat(done, env_pieces(d.envs));
    done = done + env_pieces(d.envs);

    assert(det_pieces(opt_pieces("--env-file"@, d.env_file)));
    lemma_det_pieces_concat(done, opt_pieces("--env-file"@, d.env_file));
    done = done + opt_pieces("--env-file"@, d.env_file);

    assert(det_pieces(net_pieces(d.network)));
    lemma_det_pieces_concat(done, net_pieces(d.network));
    done = done + net_pieces(d.network);

    if d.ports is Some {
        lemma_det_pieces_flag_pairs("-p"@, d.ports->Some_0@);
    }
    lemma_det_pieces_concat(done, list_pieces("-p"@, d.ports));
    done = done + list_pieces("-p"@, d.ports);

    if d.volumes is Some {
        lemma_det_pieces_flag_pairs("-v"@, d.volumes->Some_0@);
    }
    lemma_det_pieces_concat(done, list_pieces("-v"@, d.volumes));
    done = done + list_pieces("-v"@, d.volumes);

    assert(det_pieces(opt_pieces("-u"@, d.user)));
    lemma_det_pieces_concat(done, opt_pieces("-u"@, d.user));
    done = done + opt_pieces("-u"@, d.user);

    if d.extra_flags is Some {
        lemma_det_pieces_plains(d.extra_flags->Some_0@);
    }
    lemma_det_pieces_concat(done, plain_pieces(d.extra_flags));
    done = done + plain_pieces(d.extra_flags);

    assert(det_pieces(seq![Piece::Exp(d.image@)]));
    lemma_det_pieces_concat(done, seq![Piece::Exp(d.image@)]);
    done = done + seq![Piece::Exp(d.image@)];

    if d.command is Some {
        lemma_det_pieces_plains(d.command->Some_0@);
    }
    lemma_det_pieces_concat(done, plain_pieces(d.command));
    done = done + plain_pieces(d.command);

    assert(done == plan(d));
    lemma_det_rendering_unique(plan(d), r, t1, t2);
}

pub proof fn lemma_renders_concat<R: Resolver>(
    p1: Seq<Piece>,
    t1: Seq<Seq<char>>,
    p2: Seq<Piece>,
    t2: Seq<Seq<char>>,
    r: R,
)
    requires
        renders(p1, r, t1),
        renders(p2, r, t2),
    ensures
        renders(p1 + p2, r, t1 + t2),
{
    assert forall|i: int| #![trigger (p1 + p2)[i]] 0 <= i < (p1 + p2).len() implies (match (p1
        + p2)[i] {
        Piece::Fixed(x) => (t1 + t2)[i] == x,
        Piece::Exp(src) => (scan(src) is Some && spliceable(
            scan(src)->Some_0,
            r,
            (t1 + t2)[i],
        )),
    }) by {
        if i < p1.len() {
            assert((p1 + p2)[i] == p1[i] && (t1 + t2)[i] == t1[i]);
        } else {
            assert((p1 + p2)[i] == p2[i - p1.len()] && (t1 + t2)[i] == t2[i - p1.len()]);
        }
    }
}

/// The launch capability: hands an assembled token list to the tool.
/// The library never spawns a process itself; a caller hands in an
/// implementation of this trait, and `launched` is the record of every
/// token list it was handed, in order, attempts that failed included.
pub trait Launcher {
    /// Every token list handed over so far, in order.
    open spec fn launched(&self) -> Seq<Seq<Seq<char>>> {
        Seq::empty()
    }

    /// For each attempt, in the same order, whether the spawn
    /// succeeded.
    open spec fn outcomes(&self) -> Seq<bool> {
        Seq::empty()
    }

    /// Spawn the tool on one token list, wait for it, and return `Ok`
    /// on a completed run or the cause of a spawn failure. The attempt
    /// and its outcome are both recorded.
    fn launch(&mut self, args: Vec<String>) -> (r: Result<(), String>)
        ensures
            final(self).launched() == old(self).launched().push(toks_of(args@)),
            final(self).outcomes() == old(self).outcomes().push(r is Ok),
    ;
}

/// A launcher that only records what it is handed; with `fail` set it
/// reports every launch as failed, after recording the attempt.
#[derive(Debug)]
pub struct RecordingLauncher {
    pub calls: Vec<Vec<String>>,
    pub results: Vec<bool>,
    pub fail: bool,
}

impl Launcher for RecordingLauncher {
    open spec fn launched(&self) -> Seq<Seq<Seq<char>>> {
        self.calls@.map_values(|c: Vec<String>| toks_of(c@))
    }

    open spec fn outcomes(&self) -> Seq<bool> {
        self.results@
    }

    fn launch(&mut self, args: Vec<String>) -> (r: Result<(), String>)
        ensures
            r is Ok <==> !old(self).fail,
    {
        self.calls.push(args);
        proof {
            assert(self.calls@.map_values(|c: Vec<String>| toks_of(c@)) =~= old(
                self,
            ).calls@.map_values(|c: Vec<String>| toks_of(c@)).push(toks_of(args@)));
        }
        if self.fail {
            self.results.push(false);
            Err(String::from_str("launch refused by this recorder"))
        } else {
            self.results.push(true);
            Ok(())
        }
    }
}

/// Expand the entries of `es` from index `i` on, each one rendered as
/// `flag entry`.
fn render_flag_list<R: Resolver>(flag: &str, es: &Vec<String>, i: usize, r: &R) -> (res: Result<
    Vec<String>,
    InterpError,
>)
    requires
        i <= es@.len(),
    ensures
        res matches Ok(v) ==> renders(flag_pairs(flag@, es@.skip(i as int)), *r, toks_of(v@)),
        (forall|k: int| i <= k < es@.len() ==> det_str(es@[k]@)) ==> res is Ok,
        res matches Err(e) ==> exists|k: int|
            i <= k < es@.len() && fails_with(#[trigger] es@[k]@, e),
    decreases es@.len() - i,
{
    if i == es.len() {
        proof {
            assert(es@.skip(i as int) =~= Seq::<String>::empty());
            assert(toks_of(Seq::<String>::empty()) =~= Seq::<Seq<char>>::empty());
        }
        Ok(Vec::new())
    } else {
        proof {
            assert(es@.skip(i as int)[0] == es@[i as int]);
            assert(es@.skip(i as int).drop_first() =~= es@.skip(i as int + 1));
        }
        let entry = &es[i];
        match shell_interpolate(entry.as_str(), r) {
            Err(e) => {
                proof {
                    assert(fails_with(es@[i as int]@, e));
                }
                Err(e)
            },
            Ok(v) => {
                match render_flag_list(flag, es, i + 1, r) {
                    Err(e) => Err(e),
                    Ok(mut rest) => {
                        let mut out: Vec<String> = Vec::new();
                        out.push(String::from_str(flag));
                        out.push(v);
                        let ghost pair_toks = toks_of(out@);
                        proof {
                            assert(pair_toks =~= seq![flag@, out@[1]@]);
                            assert(renders(
                                seq![Piece::Fixed(flag@), Piece::Exp(es@[i as int]@)],
                                *r,
                                pair_toks,
                            ));
                            lemma_renders_concat(
                                seq![Piece::Fixed(flag@), Piece::Exp(es@[i as int]@)],
                                pair_toks,
                                flag_pairs(flag@, es@.skip(i as int + 1)),
                                toks_of(rest@),
                                *r,
                            );
                        }
                        let ghost rest_toks = toks_of(rest@);
                        out.append(&mut rest);
                        proof {
                            assert(toks_of(out@) =~= pair_toks + rest_toks);
                        }
                        Ok(out)
                    },
                }
            },
        }
    }
}

/// Expand the entries of `es` from index `i` on, each its own token.
fn render_plain_list<R: Resolver>(es: &Vec<String>, i: usize, r: &R) -> (res: Result<
    Vec<String>,
    InterpError,
>)
    requires
        i <= es@.len(),
    ensures
        res matches Ok(v) ==> renders(plains(es@.skip(i as int)), *r, toks_of(v@)),
        (forall|k: int| i <= k < es@.len() ==> det_str(es@[k]@)) ==> res is Ok,
        res matches Err(e) ==> exists|k: int|
            i <= k < es@.len() && fails_with(#[trigger] es@[k]@, e),
    decreases es@.len() - i,
{
    if i == es.len() {
        proof {
            assert(es@.skip(i as int) =~= Seq::<String>::empty());
            assert(toks_of(Seq::<String>::empty()) =~= Seq::<Seq<char>>::empty());
        }
        Ok(Vec::new())
    } else {
        proof {
            assert(es@.skip(i as int)[0] == es@[i as int]);
            assert(es@.skip(i as int).drop_first() =~= es@.skip(i as int + 1));
        }
        let entry = &es[i];
        match shell_interpolate(entry.as_str(), r) {
            Err(e) => {
                proof {
                    assert(fails_with(es@[i as int]@, e));
                }
                Err(e)
            },
            Ok(v) => {
                match render_plain_list(es, i + 1, r) {
                    Err(e) => Err(e),
                    Ok(mut rest) => {
                        let mut out: Vec<String> = Vec::new();
                        out.push(v);
                        let ghost head_toks = toks_of(out@);
                        proof {
                            assert(head_toks =~= seq![out@[0]@]);
                            assert(renders(seq![Piece::Exp(es@[i as int]@)], *r, head_toks));
                            lemma_renders_concat(
                                seq![Piece::Exp(es@[i as int]@)],
                                head_toks,
                                plains(es@.skip(i as int + 1)),
                                toks_of(rest@),
                                *r,
                            );
                        }
                        let ghost rest_toks = toks_of(rest@);
                        out.append(&mut rest);
                        proof {
                            assert(toks_of(out@) =~= head_toks + rest_toks);
                        }
                        Ok(out)
                    },
                }
            },
        }
    }
}

/// Expand the environment entries of `es` from index `i` on: each pair
/// is joined to `k=v` first, and the joined string is expanded, so
/// markers inside the key are expanded too.
fn render_env_list<R: Resolver>(es: &Vec<(String, String)>, i: usize, r: &R) -> (res: Result<
    Vec<String>,
    InterpError,
>)
    requires
        i <= es@.len(),
    ensures
        res matches Ok(v) ==> renders(env_pairs(es@.skip(i as int)), *r, toks_of(v@)),
        (forall|k: int| i <= k < es@.len() ==> det_str(es@[k].0@ + "="@ + es@[k].1@)) ==> res
            is Ok,
        res matches Err(e) ==> exists|k: int|
            i <= k < es@.len() && fails_with(#[trigger] es@[k].0@ + "="@ + es@[k].1@, e),
    decreases es@.len() - i,
{
    if i == es.len() {
        proof {
            assert(es@.skip(i as int) =~= Seq::<(String, String)>::empty());
            assert(toks_of(Seq::<String>::empty()) =~= Seq::<Seq<char>>::empty());
        }
        Ok(Vec::new())
    } else {
        proof {
            assert(es@.skip(i as int)[0] == es@[i as int]);
            assert(es@.skip(i as int).drop_first() =~= es@.skip(i as int + 1));
        }
        let pair = &es[i];
        let joined = pair.0.clone().concat("=").concat(pair.1.as_str());
        match shell_interpolate(joined.as_str(), r) {
            Err(e) => {
                proof {
                    assert(fails_with(es@[i as int].0@ + "="@ + es@[i as int].1@, e));
                }
                Err(e)
            },
            Ok(v) => {
                match render_env_list(es, i + 1, r) {
                    Err(e) => Err(e),
                    Ok(mut rest) => {
                        let mut out: Vec<String> = Vec::new();
                        out.push(String::from_str("-e"));
                        out.push(v);
                        let ghost pair_toks = toks_of(out@);
                        proof {
                            assert(pair_toks =~= seq!["-e"@, out@[1]@]);
                            assert(renders(
                                seq![
                                    Piece::Fixed("-e"@),
                                    Piece::Exp(es@[i as int].0@ + "="@ + es@[i as int].1@),
                                ],
                                *r,
                                pair_toks,
                            ));
                            lemma_renders_concat(
                                seq![
                                    Piece::Fixed("-e"@),
                                    Piece::Exp(es@[i as int].0@ + "="@ + es@[i as int].1@),
                                ],
                                pair_toks,
                                env_pairs(es@.skip(i as int + 1)),
                                toks_of(rest@),
                                *r,
                            );
                        }
                        let ghost rest_toks = toks_of(rest@);
                        out.append(&mut rest);
                        proof {
                            assert(toks_of(out@) =~= pair_toks + rest_toks);
                        }
                        Ok(out)
                    },
                }
            },
        }
    }
}

/// Render one optional single-valued flag: `flag value` when present.
fn render_opt<R: Resolver>(flag: &str, v: &Option<String>, r: &R) -> (res: Result<
    Vec<String>,
    InterpError,
>)
    ensures
        res matches Ok(out) ==> renders(opt_pieces(flag@, *v), *r, toks_of(out@)),
        det_opt(*v) ==> res is Ok,
        res matches Err(e) ==> source_fails(opt_sources(*v), e),
{
    match v {
        None => {
            proof {
                assert(toks_of(Seq::<String>::empty()) =~= Seq::<Seq<char>>::empty());
            }
            Ok(Vec::new())
        },
        Some(s) => {
            match shell_interpolate(s.as_str(), r) {
                Err(e) => {
                    proof {
                        assert(opt_sources(*v)[0] == s@);
                        assert(fails_with(opt_sources(*v)[0], e));
                    }
                    Err(e)
                },
                Ok(expanded) => {
                    let mut out: Vec<String> = Vec::new();
                    out.push(String::from_str(flag));
                    out.push(expanded);
                    proof {
                        assert(toks_of(out@) =~= seq![flag@, out@[1]@]);
                    }
                    Ok(out)
                },
            }
        },
    }
}

/// Render the network flag: one combined `--network=value` token.
fn render_net<R: Resolver>(v: &Option<String>, r: &R) -> (res: Result<Vec<String>, InterpError>)
    ensures
        res matches Ok(out) ==> renders(net_pieces(*v), *r, toks_of(out@)),
        (*v matches Some(n) ==> det_str("--network="@ + n@)) ==> res is Ok,
        res matches Err(e) ==> source_fails(net_sources(*v), e),
{
    match v {
        None => {
            proof {
                assert(toks_of(Seq::<String>::empty()) =~= Seq::<Seq<char>>::empty());
            }
            Ok(Vec::new())
        },
        Some(n) => {
            let joined = String::from_str("--network=").concat(n.as_str());
            match shell_interpolate(joined.as_str(), r) {
                Err(e) => {
                    proof {
                        assert(net_sources(*v)[0] == joined@);
                        assert(fails_with(net_sources(*v)[0], e));
                    }
                    Err(e)
                },
                Ok(expanded) => {
                    let mut out: Vec<String> = Vec::new();
                    out.push(expanded);
                    proof {
                        assert(toks_of(out@) =~= seq![out@[0]@]);
                    }
                    Ok(out)
                },
            }
        },
    }
}

/// Render an optional list as `flag entry` pairs, in list order.
fn render_list_opt<R: Resolver>(flag: &str, v: &Option<Vec<String>>, r: &R) -> (res: Result<
    Vec<String>,
    InterpError,
>)
    ensures
        res matches Ok(out) ==> renders(list_pieces(flag@, *v), *r, toks_of(out@)),
        det_list(*v) ==> res is Ok,
        res matches Err(e) ==> source_fails(list_sources(*v), e),
{
    match v {
        None => {
            proof {
                assert(toks_of(Seq::<String>::empty()) =~= Seq::<Seq<char>>::empty());
            }
            Ok(Vec::new())
        },
        Some(es) => {
            let out = render_flag_list(flag, es, 0, r);
            proof {
                assert(es@.skip(0) =~= es@);
                if out is Err {
                    let e = out->Err_0;
                    let k = choose|k: int| 0 <= k < es@.len() && fails_with(#[trigger] es@[k]@, e);
                    assert(list_sources(*v)[k] == es@[k]@);
                    assert(fails_with(list_sources(*v)[k], e));
                }
            }
            out
        },
    }
}

/// Render an optional list as bare expanded tokens, in list order.
fn render_plain_opt<R: Resolver>(v: &Option<Vec<String>>, r: &R) -> (res: Result<
    Vec<String>,
    InterpError,
>)
    ensures
        res matches Ok(out) ==> renders(plain_pieces(*v), *r, toks_of(out@)),
        det_list(*v) ==> res is Ok,
        res matches Err(e) ==> source_fails(list_sources(*v), e),
{
    match v {
        None => {
            proof {
                assert(toks_of(Seq::<String>::empty()) =~= Seq::<Seq<char>>::empty());
            }
            Ok(Vec::new())
        },
        Some(es) => {
            let out = render_plain_list(es, 0, r);
            proof {
                assert(es@.skip(0) =~= es@);
                if out is Err {
                    let e = out->Err_0;
                    let k = choose|k: int| 0 <= k < es@.len() && fails_with(#[trigger] es@[k]@, e);
                    assert(list_sources(*v)[k] == es@[k]@);
                    assert(fails_with(list_sources(*v)[k], e));
                }
            }
            out
        },
    }
}

/// Render the optional environment entries as `-e k=v` pairs.
fn render_envs_opt<R: Resolver>(v: &Option<Vec<(String, String)>>, r: &R) -> (res: Result<
    Vec<String>,
    InterpError,
>)
    ensures
        res matches Ok(out) ==> renders(env_pieces(*v), *r, toks_of(out@)),
        det_envs(*v) ==> res is Ok,
        res matches Err(e) ==> source_fails(env_sources(*v), e),
{
    match v {
        None => {
            proof {
                assert(toks_of(Seq::<String>::empty()) =~= Seq::<Seq<char>>::empty());
            }
            Ok(Vec::new())
        },
        Some(es) => {
            let out = render_env_list(es, 0, r);
            proof {
                assert(es@.skip(0) =~= es@);
                if out is Err {
                    let e = out->Err_0;
                    let k = choose|k: int|
                        0 <= k < es@.len() && fails_with(#[trigger] es@[k].0@ + "="@ + es@[k].1@, e);
                    assert(env_sources(*v)[k] == es@[k].0@ + "="@ + es@[k].1@);
                    assert(fails_with(env_sources(*v)[k], e));
                }
            }
            out
        },
    }
}

impl DockerRun {
    /// Assemble the full token list of this invocation, expanding every
    /// user-controlled string through the resolver, in the exact order
    /// of the plan. The first interpolation failure aborts the whole
    /// build and names the field it came from.
    #[verifier::rlimit(50)]
    pub fn render_args<R: Resolver>(&self, r: &R) -> (res: Result<Vec<String>, BuildError>)
        ensures
            res matches Ok(args) ==> renders(plan(*self), *r, toks_of(args@)),
            det_spec(*self) ==> res is Ok,
            res matches Err(e) ==> e is Interpolation,
            res matches Err(BuildError::Interpolation(f, c)) ==> faulted_field(*self, f@, c),
    {
        let mut args: Vec<String> = Vec::new();
        args.push(String::from_str("run"));
        args.push(String::from_str("--rm"));
        let ghost mut done = seq![Piece::Fixed("run"@), Piece::Fixed("--rm"@)];
        proof {
            assert(toks_of(args@) =~= seq!["run"@, "--rm"@]);
            assert(renders(done, *r, toks_of(args@)));
        }

        let mut group = match render_opt("--entrypoint", &self.entrypoint, r) {
            Err(e) => return Err(BuildError::Interpolation(String::from_str("entrypoint"), e)),
            Ok(g) => g,
        };
        proof {
            lemma_renders_concat(
                done,
                toks_of(args@),
                opt_pieces("--entrypoint"@, self.entrypoint),
                toks_of(group@),
                *r,
            );
            done = done + opt_pieces("--entrypoint"@, self.entrypoint);
        }
        let ghost (before, group_toks) = (toks_of(args@), toks_of(group@));
        args.append(&mut group);
        proof {
            assert(toks_of(args@) =~= before + group_toks);
            assert(renders(done, *r, toks_of(args@)));
        }

        let mut group = match render_envs_opt(&self.envs, r) {
            Err(e) => return Err(BuildError::Interpolation(String::from_str("envs"), e)),
            Ok(g) => g,
        };
        proof {
            lemma_renders_concat(done, toks_of(args@), env_pieces(self.envs), toks_of(group@), *r);
            done = done + env_pieces(self.envs);
        }
        let ghost (before, group_toks) = (toks_of(args@), toks_of(group@));
        args.append(&mut group);
        proof {
            assert(toks_of(args@) =~= before + group_toks);
            assert(renders(done, *r, toks_of(args@)));
        }

        let mut group = match render_opt("--env-file", &self.env_file, r) {
            Err(e) => return Err(BuildError::Interpolation(String::from_str("env_file"), e)),
            Ok(g) => g,
        };
        proof {
            lemma_renders_concat(
                done,
                toks_of(args@),
                opt_pieces("--env-file"@, self.env_file),
                toks_of(group@),
                *r,
            );
            done = done + opt_pieces("--env-file"@, self.env_file);
        }
        let ghost (before, group_toks) = (toks_of(args@), toks_of(group@));
        args.append(&mut group);
        proof {
            assert(toks_of(args@) =~= before + group_toks);
            assert(renders(done, *r, toks_of(args@)));
        }

        let mut group = match render_net(&self.network, r) {
            Err(e) => return Err(BuildError::Interpolation(String::from_str("network"), e)),
            Ok(g) => g,
        };
        proof {
            lemma_renders_concat(done, toks_of(args@), net_pieces(self.network), toks_of(group@), *r);
            done = done + net_pieces(self.network);
        }
        let ghost (before, group_toks) = (toks_of(args@), toks_of(group@));
        args.append(&mut group);
        proof {
            assert(toks_of(args@) =~= before + group_toks);
            assert(renders(done, *r, toks_of(args@)));
        }

        let mut group = match render_list_opt("-p", &self.ports, r) {
            Err(e) => return Err(BuildError::Interpolation(String::from_str("ports"), e)),
            Ok(g) => g,
        };
        proof {
            lemma_renders_concat(
                done,
                toks_of(args@),
                list_pieces("-p"@, self.ports),
                toks_of(group@),
                *r,
            );
            done = done + list_pieces("-p"@, self.ports);
        }
        let ghost (before, group_toks) = (toks_of(args@), toks_of(group@));
        args.append(&mut group);
        proof {
            assert(toks_of(args@) =~= before + group_toks);
            assert(renders(done, *r, toks_of(args@)));
        }

        let mut group = match render_list_opt("-v", &self.volumes, r) {
            Err(e) => return Err(BuildError::Interpolation(String::from_str("volumes"), e)),
            Ok(g) => g,
        };
        proof {
            lemma_renders_concat(
                done,
                toks_of(args@),
                list_pieces("-v"@, self.volumes),
                toks_of(group@),
                *r,
            );
            done = done + list_pieces("-v"@, self.volumes);
        }
        let ghost (before, group_toks) = (toks_of(args@), toks_of(group@));
        args.append(&mut group);
        proof {
            assert(toks_of(args@) =~= before + group_toks);
            assert(renders(done, *r, toks_of(args@)));
        }

        let mut group = match render_opt("-u", &self.user, r) {
            Err(e) => return Err(BuildError::Interpolation(String::from_str("user"), e)),
            Ok(g) => g,
        };
        proof {
            lemma_renders_concat(
                done,
                toks_of(args@),
                opt_pieces("-u"@, self.user),
                toks_of(group@),
                *r,
            );
            done = done + opt_pieces("-u"@, self.user);
        }
        let ghost (before, group_toks) = (toks_of(args@), toks_of(group@));
        args.append(&mut group);
        proof {
            assert(toks_of(args@) =~= before + group_toks);
            assert(renders(done, *r, toks_of(args@)));
        }

        let mut group = match render_plain_opt(&self.extra_flags, r) {
            Err(e) => return Err(BuildError::Interpolation(String::from_str("extra_flags"), e)),
            Ok(g) => g,
        };
        proof {
            lemma_renders_concat(
                done,
                toks_of(args@),
                plain_pieces(self.extra_flags),
                toks_of(group@),
                *r,
            );
            done = done + plain_pieces(self.extra_flags);
        }
        let ghost (before, group_toks) = (toks_of(args@), toks_of(group@));
        args.append(&mut group);
        proof {
            assert(toks_of(args@) =~= before + group_toks);
            assert(renders(done, *r, toks_of(args@)));
        }

        let image_expanded = match shell_interpolate(self.image.as_str(), r) {
            Err(e) => {
                proof {
                    assert(fails_with(self.image@, e));
                    assert(seq![self.image@][0] == self.image@);
                }
                return Err(BuildError::Interpolation(String::from_str("image"), e));
            },
            Ok(v) => v,
        };
        let ghost before = toks_of(args@);
        args.push(image_expanded);
        proof {
            assert(toks_of(args@) =~= before + seq![args@[args@.len() - 1]@]);
            assert(renders(seq![Piece::Exp(self.image@)], *r, seq![args@[args@.len() - 1]@]));
            lemma_renders_concat(
                done,
                before,
                seq![Piece::Exp(self.image@)],
                seq![args@[args@.len() - 1]@],
                *r,
            );
            done = done + seq![Piece::Exp(self.image@)];
            assert(renders(done, *r, toks_of(args@)));
        }

        let mut group = match render_plain_opt(&self.command, r) {
            Err(e) => return Err(BuildError::Interpolation(String::from_str("command"), e)),
            Ok(g) => g,
        };
        proof {
            lemma_renders_concat(
                done,
                toks_of(args@),
                plain_pieces(self.command),
                toks_of(group@),
                *r,
            );
            done = done + plain_pieces(self.command);
        }
        let ghost (before, group_toks) = (toks_of(args@), toks_of(group@));
        args.append(&mut group);
        proof {
            assert(toks_of(args@) =~= before + group_toks);
            assert(renders(done, *r, toks_of(args@)));
            assert(done == plan(*self));
        }

        Ok(args)
    }

    /// Assemble this invocation's token list and hand it to the
    /// launcher. An interpolation failure aborts the build before the
    /// launcher is ever invoked and names a field that is really to
    /// blame; a completed render is handed over exactly once, and the
    /// result mirrors the attempt's recorded outcome: `Ok` only for a
    /// successful spawn, `Launch` only for a failed one.
    pub fn run<R: Resolver, L: Launcher>(&self, r: &R, launcher: &mut L) -> (res: Result<
        (),
        BuildError,
    >)
        ensures
            (res matches Err(e) && e is Interpolation) ==> *final(launcher) == *old(launcher),
            res is Ok ==> (exists|t: Seq<Seq<char>>|
                renders(plan(*self), *r, t) && final(launcher).launched() == old(
                    launcher,
                ).launched().push(t)) && final(launcher).outcomes() == old(
                launcher,
            ).outcomes().push(true),
            (res matches Err(e) && e is Launch) ==> (exists|t: Seq<Seq<char>>|
                renders(plan(*self), *r, t) && final(launcher).launched() == old(
                    launcher,
                ).launched().push(t)) && final(launcher).outcomes() == old(
                launcher,
            ).outcomes().push(false),
            det_spec(*self) ==> !(res matches Err(e) && e is Interpolation),
            res matches Err(BuildError::Interpolation(f, c)) ==> faulted_field(*self, f@, c),
    {
        match self.render_args(r) {
            Err(e) => Err(e),
            Ok(args) => {
                let ghost t = toks_of(args@);
                match launcher.launch(args) {
                    Ok(()) => {
                        proof {
                            assert(renders(plan(*self), *r, t) && final(launcher).launched()
                                == old(launcher).launched().push(t));
                        }
                        Ok(())
                    },
                    Err(cause) => {
                        proof {
                            assert(renders(plan(*self), *r, t) && final(launcher).launched()
                                == old(launcher).launched().push(t));
                        }
                        Err(BuildError::Launch(cause))
                    },
                }
            },
        }
    }
}

} // verus!
