//! The run specification: the command-line surface of a run, the resolver
//! for the platform set, the transport decision, and the argument round
//! trip that remote dispatch rests on.
//!
//! Remote dispatch re-serializes the whole specification — minus the remote
//! target, so the remote instance cannot dispatch again — back into the
//! tool's own argument vector and re-invokes the same program against the
//! remote host; the round-trip law below makes that transport lossless.

use vstd::prelude::*;

use crate::bytes::{byte_views, bytes_eq, clone_bytes};
use crate::error::{CiError, CiErrorView};

verus! {

broadcast use {crate::bytes::lemma_bytes_deep_view, crate::bytes::lemma_bytes_list_deep_view};

/// A run specification, immutable for the duration of one run.
pub struct RunCommand {
    /// Run remotely on this store URI instead of locally.
    pub on: Option<Vec<u8>>,
    /// A flake reference naming the list of platforms to build for; absent
    /// means the invoking host's own platform.
    pub systems: Option<Vec<u8>>,
    /// Where to write the run result; absent means nothing is persisted.
    pub results: Option<Vec<u8>>,
    /// The flake or configuration reference to run against.
    pub flake_ref: Vec<u8>,
    /// Arguments forwarded to every step.
    pub steps_args: Vec<Vec<u8>>,
}

/// Mathematical image of a `RunCommand`.
pub struct RunCommandView {
    pub on: Option<Seq<u8>>,
    pub systems: Option<Seq<u8>>,
    pub results: Option<Seq<u8>>,
    pub flake_ref: Seq<u8>,
    pub steps_args: Seq<Seq<u8>>,
}

impl View for RunCommand {
    type V = RunCommandView;

    open spec fn view(&self) -> RunCommandView {
        RunCommandView {
            on: self.on.deep_view(),
            systems: self.systems.deep_view(),
            results: self.results.deep_view(),
            flake_ref: self.flake_ref@,
            steps_args: byte_views(self.steps_args@),
        }
    }
}

/// The bytes of the remote-target flag, `--on`.
pub open spec fn flag_on() -> Seq<u8> {
    seq![45u8, 45u8, 111u8, 110u8]
}

/// The bytes of the platform-list flag, `--systems`.
pub open spec fn flag_systems() -> Seq<u8> {
    seq![45u8, 45u8, 115u8, 121u8, 115u8, 116u8, 101u8, 109u8, 115u8]
}

/// The bytes of the result-destination flag, `--results`.
pub open spec fn flag_results() -> Seq<u8> {
    seq![45u8, 45u8, 114u8, 101u8, 115u8, 117u8, 108u8, 116u8, 115u8]
}

/// The bytes of the short result-destination flag, `-o`.
pub open spec fn flag_o() -> Seq<u8> {
    seq![45u8, 111u8]
}

/// The default flake reference: the current project, `.`.
pub open spec fn default_flake() -> Seq<u8> {
    seq![46u8]
}

fn make_flag_on() -> (r: Vec<u8>)
    ensures
        r@ == flag_on(),
{
    let mut v: Vec<u8> = Vec::new();
    v.push(45);
    v.push(45);
    v.push(111);
    v.push(110);
    proof {
        assert(v@ =~= flag_on());
    }
    v
}

fn make_flag_systems() -> (r: Vec<u8>)
    ensures
        r@ == flag_systems(),
{
    let mut v: Vec<u8> = Vec::new();
    v.push(45);
    v.push(45);
    v.push(115);
    v.push(121);
    v.push(115);
    v.push(116);
    v.push(101);
    v.push(109);
    v.push(115);
    proof {
        assert(v@ =~= flag_systems());
    }
    v
}

fn make_flag_results() -> (r: Vec<u8>)
    ensures
        r@ == flag_results(),
{
    let mut v: Vec<u8> = Vec::new();
    v.push(45);
    v.push(45);
    v.push(114);
    v.push(101);
    v.push(115);
    v.push(117);
    v.push(108);
    v.push(116);
    v.push(115);
    proof {
        assert(v@ =~= flag_results());
    }
    v
}

fn make_flag_o() -> (r: Vec<u8>)
    ensures
        r@ == flag_o(),
{
    let mut v: Vec<u8> = Vec::new();
    v.push(45);
    v.push(111);
    proof {
        assert(v@ =~= flag_o());
    }
    v
}

fn make_default_flake() -> (r: Vec<u8>)
    ensures
        r@ == default_flake(),
{
    let mut v: Vec<u8> = Vec::new();
    v.push(46);
    proof {
        assert(v@ =~= default_flake());
    }
    v
}

/// The argument vector a run specification serializes to: the flags in
/// fixed order, then the flake reference, then the forwarded step
/// arguments. The result destination is deliberately not serialized: a
/// dispatched run never writes the local caller's result file.
pub open spec fn cli_args_of(c: RunCommandView) -> Seq<Seq<u8>> {
    (match c.on {
        Some(u) => seq![flag_on(), u],
        None => Seq::<Seq<u8>>::empty(),
    }) + (match c.systems {
        Some(s) => seq![flag_systems(), s],
        None => Seq::<Seq<u8>>::empty(),
    }) + seq![c.flake_ref] + c.steps_args
}

/// One parsing step over the argument vector: recognized flags consume
/// their value (a repeated flag keeps the last value, as the original
/// command line did), an unrecognized flag rejects the vector, and the
/// first positional argument is the flake reference — everything after it
/// is forwarded to the steps verbatim.
pub open spec fn parse_flags(args: Seq<Seq<u8>>, acc: RunCommandView) -> Option<RunCommandView>
    decreases args.len(),
{
    if args.len() == 0 {
        Some(acc)
    } else if args[0] == flag_on() {
        if args.len() < 2 {
            None
        } else {
            parse_flags(
                args.skip(2),
                RunCommandView {
                    on: Some(args[1]),
                    systems: acc.systems,
                    results: acc.results,
                    flake_ref: acc.flake_ref,
                    steps_args: acc.steps_args,
                },
            )
        }
    } else if args[0] == flag_systems() {
        if args.len() < 2 {
            None
        } else {
            parse_flags(
                args.skip(2),
                RunCommandView {
                    on: acc.on,
                    systems: Some(args[1]),
                    results: acc.results,
                    flake_ref: acc.flake_ref,
                    steps_args: acc.steps_args,
                },
            )
        }
    } else if args[0] == flag_results() || args[0] == flag_o() {
        if args.len() < 2 {
            None
        } else {
            parse_flags(
                args.skip(2),
                RunCommandView {
                    on: acc.on,
                    systems: acc.systems,
                    results: Some(args[1]),
                    flake_ref: acc.flake_ref,
                    steps_args: acc.steps_args,
                },
            )
        }
    } else if args[0].len() > 0 && args[0][0] == 45u8 {
        None
    } else {
        Some(
            RunCommandView {
                on: acc.on,
                systems: acc.systems,
                results: acc.results,
                flake_ref: args[0],
                steps_args: args.skip(1),
            },
        )
    }
}

/// The empty run specification every parse starts from: run locally, on the
/// host's own platform, against the current project, persisting nothing.
pub open spec fn initial_command() -> RunCommandView {
    RunCommandView {
        on: None,
        systems: None,
        results: None,
        flake_ref: default_flake(),
        steps_args: Seq::empty(),
    }
}

/// What an argument vector decodes to.
pub open spec fn spec_parse_args(args: Seq<Seq<u8>>) -> Option<RunCommandView> {
    parse_flags(args, initial_command())
}

/// The same specification with the remote target stripped and the local
/// result destination dropped: what a dispatched run executes.
pub open spec fn dispatched(c: RunCommandView) -> RunCommandView {
    RunCommandView {
        on: None,
        systems: c.systems,
        results: None,
        flake_ref: c.flake_ref,
        steps_args: c.steps_args,
    }
}

/// How a run is carried out: on the local store, or forwarded whole to a
/// remote host's store.
pub enum Transport {
    Local,
    Remote { store_uri: Vec<u8> },
}

impl RunCommand {
    /// Decides the transport: a remote target forwards the entire run to
    /// that store URI, otherwise the run is local.
    pub fn transport(&self) -> (t: Transport)
        ensures
            self@.on is None ==> t is Local,
            (self@.on matches Some(u) ==> (t matches Transport::Remote { store_uri } && store_uri@
                == u)),
    {
        match &self.on {
            None => Transport::Local,
            Some(u) => Transport::Remote { store_uri: clone_bytes(u) },
        }
    }

    /// Resolves the platform set. With no requested list this is the
    /// singleton of the invoking host's own platform, however many
    /// platforms any subflake supports; with one, the externally evaluated
    /// sequence is taken verbatim, order preserved, and a failed evaluation
    /// aborts the run.
    pub fn get_systems(&self, current_system: &Vec<u8>, evaluated: Option<Vec<Vec<u8>>>) -> (r:
        Result<Vec<Vec<u8>>, CiError>)
        ensures
            self@.systems is None ==> (r matches Ok(v) && v.deep_view() == seq![current_system@]),
            self@.systems is Some && evaluated is Some ==> (r matches Ok(v) && v.deep_view()
                == evaluated->Some_0.deep_view()),
            self@.systems is Some && evaluated is None ==> (r matches Err(e) && e@
                == CiErrorView::SystemResolutionError { reference: self@.systems->Some_0 }),
    {
        match &self.systems {
            None => {
                let mut v: Vec<Vec<u8>> = Vec::new();
                v.push(clone_bytes(current_system));
                proof {
                    assert(v.deep_view() =~= seq![current_system@]);
                }
                Ok(v)
            },
            Some(sref) => match evaluated {
                Some(vs) => Ok(vs),
                None => Err(
                    CiError::SystemResolutionError { reference: clone_bytes(sref) },
                ),
            },
        }
    }

    /// Serializes the specification back into the tool's own argument
    /// vector.
    pub fn to_cli_args(&self) -> (r: Vec<Vec<u8>>)
        ensures
            byte_views(r@) == cli_args_of(self@),
    {
        let mut args: Vec<Vec<u8>> = Vec::new();
        if let Some(uri) = self.on.as_ref() {
            args.push(make_flag_on());
            args.push(clone_bytes(uri));
        }
        if let Some(s) = self.systems.as_ref() {
            args.push(make_flag_systems());
            args.push(clone_bytes(s));
        }
        args.push(clone_bytes(&self.flake_ref));
        let ghost head = (match self@.on {
            Some(u) => seq![flag_on(), u],
            None => Seq::<Seq<u8>>::empty(),
        }) + (match self@.systems {
            Some(s) => seq![flag_systems(), s],
            None => Seq::<Seq<u8>>::empty(),
        }) + seq![self@.flake_ref];
        proof {
            assert(byte_views(args@) =~= head);
        }
        let n = self.steps_args.len();
        let mut i: usize = 0;
        while i < n
            invariant
                i <= n,
                n == self.steps_args@.len(),
                byte_views(args@) == head + self@.steps_args.take(i as int),
            decreases n - i,
        {
            let item = clone_bytes(&self.steps_args[i]);
            let ghost pre = args@;
            args.push(item);
            proof {
                assert(self@.steps_args[i as int] == self.steps_args@[i as int]@);
                let whole = head + self@.steps_args.take(i as int + 1);
                assert(byte_views(pre).len() == pre.len());
                assert(pre.len() == head.len() + i);
                assert(args@ == pre.push(item));
                assert forall|k: int| 0 <= k < args@.len() implies byte_views(args@)[k]
                    == whole[k] by {
                    assert(byte_views(args@)[k] == args@[k]@);
                    if k < pre.len() {
                        assert(args@[k] == pre[k]);
                        assert(byte_views(pre)[k] == pre[k]@);
                        assert((head + self@.steps_args.take(i as int))[k] == whole[k]);
                    } else {
                        assert(args@[k] == item);
                        assert(whole[k] == self@.steps_args.take(i as int + 1)[i as int]);
                    }
                }
                assert(byte_views(args@) =~= whole);
            }
            i = i + 1;
        }
        proof {
            assert(self@.steps_args.take(n as int) =~= self@.steps_args);
            assert(byte_views(args@) =~= cli_args_of(self@));
        }
        args
    }

    /// The argument vector the remote dispatcher forwards: this very
    /// specification, with the remote target stripped so the remote
    /// instance runs locally, and without the local result destination.
    pub fn remote_args(&self) -> (r: Vec<Vec<u8>>)
        ensures
            byte_views(r@) == cli_args_of(dispatched(self@)),
    {
        let stripped = RunCommand {
            on: None,
            systems: match &self.systems {
                None => None,
                Some(s) => Some(clone_bytes(s)),
            },
            results: None,
            flake_ref: clone_bytes(&self.flake_ref),
            steps_args: crate::bytes::clone_bytes_list(&self.steps_args),
        };
        proof {
            assert(stripped@.steps_args =~= self@.steps_args);
            assert(stripped@ == dispatched(self@));
        }
        stripped.to_cli_args()
    }

    /// Decodes an argument vector back into a run specification; `None`
    /// rejects a vector with an unrecognized flag or a flag without a
    /// value.
    pub fn from_cli_args(args: &Vec<Vec<u8>>) -> (r: Option<RunCommand>)
        ensures
            match r {
                None => spec_parse_args(byte_views(args@)) is None,
                Some(c) => spec_parse_args(byte_views(args@)) == Some(c@),
            },
    {
        let ghost all = byte_views(args@);
        let mut on: Option<Vec<u8>> = None;
        let mut systems: Option<Vec<u8>> = None;
        let mut results: Option<Vec<u8>> = None;
        let n = args.len();
        let mut i: usize = 0;
        proof {
            assert(all.skip(0) =~= all);
        }
        while i < n
            invariant
                i <= n,
                n == args@.len(),
                all == byte_views(args@),
                spec_parse_args(all) == parse_flags(
                    all.skip(i as int),
                    RunCommandView {
                        on: on.deep_view(),
                        systems: systems.deep_view(),
                        results: results.deep_view(),
                        flake_ref: default_flake(),
                        steps_args: Seq::empty(),
                    },
                ),
            decreases n - i,
        {
            let ghost rest = all.skip(i as int);
            proof {
                assert(rest[0] == all[i as int]);
                assert(all[i as int] == args@[i as int]@);
                if i + 2 <= n {
                    assert(rest.skip(2) =~= all.skip(i as int + 2));
                }
                assert(rest.skip(1) =~= all.skip(i as int + 1));
            }
            let flag_on_v = make_flag_on();
            let flag_systems_v = make_flag_systems();
            let flag_results_v = make_flag_results();
            let flag_o_v = make_flag_o();
            let arg = &args[i];
            if bytes_eq(arg, &flag_on_v) {
                if i + 1 >= n {
                    proof {
                        assert(rest.len() < 2);
                    }
                    return None;
                }
                on = Some(clone_bytes(&args[i + 1]));
                proof {
                    assert(rest[1] == args@[i as int + 1]@);
                }
                i = i + 2;
            } else if bytes_eq(arg, &flag_systems_v) {
                if i + 1 >= n {
                    return None;
                }
                systems = Some(clone_bytes(&args[i + 1]));
                proof {
                    assert(rest[1] == args@[i as int + 1]@);
                }
                i = i + 2;
            } else if bytes_eq(arg, &flag_results_v) || bytes_eq(arg, &flag_o_v) {
                if i + 1 >= n {
                    return None;
                }
                results = Some(clone_bytes(&args[i + 1]));
                proof {
                    assert(rest[1] == args@[i as int + 1]@);
                }
                i = i + 2;
            } else if arg.len() > 0 && arg[0] == 45u8 {
                proof {
                    assert(rest[0].len() > 0 && rest[0][0] == 45u8);
                }
                return None;
            } else {
                let flake_ref = clone_bytes(arg);
                let mut steps_args: Vec<Vec<u8>> = Vec::new();
                let mut j: usize = i + 1;
                while j < n
                    invariant
                        i < j,
                        j <= n,
                        n == args@.len(),
                        all == byte_views(args@),
                        byte_views(steps_args@) == all.subrange(i as int + 1, j as int),
                    decreases n - j,
                {
                    let item = clone_bytes(&args[j]);
                    let ghost pre = steps_args@;
                    steps_args.push(item);
                    proof {
                        assert(all[j as int] == args@[j as int]@);
                        let whole = all.subrange(i as int + 1, j as int + 1);
                        assert(byte_views(pre).len() == pre.len());
                        assert(pre.len() == j - i - 1);
                        assert(steps_args@ == pre.push(item));
                        assert forall|k: int| 0 <= k < steps_args@.len() implies byte_views(
                            steps_args@,
                        )[k] == whole[k] by {
                            assert(byte_views(steps_args@)[k] == steps_args@[k]@);
                            if k < pre.len() {
                                assert(steps_args@[k] == pre[k]);
                                assert(byte_views(pre)[k] == pre[k]@);
                                assert(all.subrange(i as int + 1, j as int)[k] == whole[k]);
                            } else {
                                assert(steps_args@[k] == item);
                                assert(whole[k] == all[j as int]);
                            }
                        }
                        assert(byte_views(steps_args@) =~= whole);
                    }
                    j = j + 1;
                }
                let c = RunCommand { on, systems, results, flake_ref, steps_args };
                proof {
                    assert(byte_views(c.steps_args@) =~= rest.skip(1));
                    assert(c@.flake_ref == rest[0]);
                }
                return Some(c);
            }
        }
        proof {
            assert(all.skip(n as int) =~= Seq::<Seq<u8>>::empty());
        }
        let c = RunCommand {
            on,
            systems,
            results,
            flake_ref: make_default_flake(),
            steps_args: Vec::new(),
        };
        proof {
            assert(byte_views(c.steps_args@) =~= Seq::<Seq<u8>>::empty());
        }
        Some(c)
    }
}

impl Default for RunCommand {
    /// The specification an empty command line parses to.
    fn default() -> (d: RunCommand)
        ensures
            d@ == initial_command(),
    {
        let d = RunCommand {
            on: None,
            systems: None,
            results: None,
            flake_ref: make_default_flake(),
            steps_args: Vec::new(),
        };
        proof {
            assert(byte_views(d.steps_args@) =~= Seq::<Seq<u8>>::empty());
        }
        d
    }
}

/// Remote transparency: the argument vector a dispatched run is handed
/// decodes to exactly the original specification minus the remote target
/// (and the local result destination); in particular the platform-list
/// reference, the flake reference and the forwarded step arguments survive
/// the transport untouched, and the decoded specification carries no remote
/// target, so the remote instance runs locally. The run's outcome is a
/// function of the plan, the selector and the resolved platform set alone
/// (`attempts_of`/`results_of` take nothing else, and a plan every subflake
/// of which is filtered out yields the empty-result success either way —
/// `lemma_all_skipped_empty_result`), so a dispatched run computes exactly
/// what the same specification computes locally: the transport adds nothing
/// and loses nothing.
pub proof fn lemma_remote_dispatch_transparent(c: RunCommandView)
    requires
        c.flake_ref.len() > 0,
        c.flake_ref[0] != 45u8,
    ensures
        spec_parse_args(cli_args_of(dispatched(c))) == Some(dispatched(c)),
        dispatched(c).on is None,
        dispatched(c).results is None,
        dispatched(c).systems == c.systems,
        dispatched(c).flake_ref == c.flake_ref,
        dispatched(c).steps_args == c.steps_args,
{
    let d = dispatched(c);
    let tail = seq![d.flake_ref] + d.steps_args;
    assert(tail[0] == d.flake_ref);
    assert(tail.skip(1) =~= d.steps_args);
    match d.systems {
        None => {
            assert(cli_args_of(d) =~= tail);
            assert(parse_flags(tail, initial_command()) == Some(d));
        },
        Some(s) => {
            let args = cli_args_of(d);
            assert(args =~= seq![flag_systems(), s] + tail);
            assert(args[0] == flag_systems());
            assert(flag_systems().len() != flag_on().len());
            assert(args[0] != flag_on());
            assert(args.len() >= 2);
            assert(args.skip(2) =~= tail);
            let acc = RunCommandView {
                on: None,
                systems: Some(s),
                results: None,
                flake_ref: default_flake(),
                steps_args: Seq::empty(),
            };
            assert(parse_flags(tail, acc) == Some(d));
            assert(parse_flags(args, initial_command()) == Some(d));
        },
    }
}

} // verus!
