//! The order of a walk, proved: fed the answers of a tree of paths, the walker
//! asks about every path below a directory before it renames the directory.
//!
//! A [`Tree`] records what the caller answers for each path. [`visit`] writes
//! down, by recursion on the tree, the dialogue that a walk in post-order
//! consists of. The lemmas show that the walker, which keeps a stack and never
//! recurses, conducts exactly that dialogue.

use vstd::prelude::*;
use crate::compose::sanitized_path;
use crate::rename::{decided, path_after, report_line, RenameAction};
use crate::sanitize::SanitizeMode;
use crate::walk::{
    advanced,
    begun,
    probed,
    settled,
    started,
    stepped,
    FrameView,
    ReplyView,
    RequestView,
    RunnerView,
};

verus! {

/// A path with what the caller finds out about it, and, where the path is a
/// real directory, the same for everything in it.
pub struct Tree {
    /// The path.
    pub path: Seq<char>,
    /// The path exists when it is taken up as a target.
    pub found: bool,
    /// The path is a directory, links followed, when its rename comes up.
    pub is_dir: bool,
    /// The path and its sanitized path are the same path.
    pub same: bool,
    /// The path exists when its rename is probed.
    pub old_exists: bool,
    /// The sanitized path exists when the rename is probed.
    pub new_exists: bool,
    /// What the path holds, where it is a real directory.
    pub entries: Option<Seq<Tree>>,
}

/// A request with the reply that the caller gives to it.
pub struct Exchange {
    pub request: RequestView,
    pub reply: ReplyView,
}

/// The paths of the trees, in order.
pub open spec fn paths(trees: Seq<Tree>) -> Seq<Seq<char>> {
    Seq::new(trees.len(), |i: int| trees[i].path)
}

/// The sanitized path of the root of `t`.
pub open spec fn target_of(t: Tree, s: RunnerView) -> Seq<char> {
    sanitized_path(t.path, t.is_dir, s.replacement, s.mode)
}

/// The path that stands for the root of `t` once its rename is settled.
pub open spec fn outcome_of(t: Tree, s: RunnerView) -> Seq<char> {
    path_after(
        decided(t.same, t.old_exists, t.new_exists, s.dry_run),
        t.path,
        target_of(t, s),
    )
}

/// The dialogue that settles the rename of the root of `t`: is it a directory,
/// are the old and the new path the same and do they exist, and the rename or
/// the report.
pub open spec fn renaming(t: Tree, s: RunnerView) -> Seq<Exchange> {
    seq![
        Exchange { request: RequestView::IsDir(t.path), reply: ReplyView::Flag(t.is_dir) },
        Exchange {
            request: RequestView::Probe { old: t.path, new: target_of(t, s) },
            reply: ReplyView::Probed {
                same: t.same,
                old_exists: t.old_exists,
                new_exists: t.new_exists,
            },
        },
        Exchange { request: settlement_of(t, s), reply: ReplyView::Done },
    ]
}

/// The dialogue of a walk of `t` in post-order, from the question whether its
/// root is a real directory: a directory is listed, each of its entries is
/// visited in turn, and only then is the directory itself renamed.
pub open spec fn visit(t: Tree, s: RunnerView) -> Seq<Exchange>
    decreases t, 0nat,
{
    seq![
        Exchange {
            request: RequestView::IsRealDir(t.path),
            reply: ReplyView::Flag(t.entries is Some),
        },
    ] + match t.entries {
        Some(entries) => seq![
            Exchange {
                request: RequestView::List(t.path),
                reply: ReplyView::Entries(paths(entries)),
            },
        ] + visits(entries, s, entries.len()),
        None => Seq::empty(),
    } + renaming(t, s)
}

/// The dialogue of the visits of the first `n` trees, one after the other.
pub open spec fn visits(trees: Seq<Tree>, s: RunnerView, n: nat) -> Seq<Exchange>
    decreases trees, n,
{
    if n == 0 || n > trees.len() {
        Seq::empty()
    } else {
        visits(trees, s, (n - 1) as nat) + visit(trees[n - 1], s)
    }
}

/// The walker conducts the dialogue from state `s`: each request of the
/// dialogue is the one that the walker holds when its turn comes.
pub open spec fn conducts(s: RunnerView, dialogue: Seq<Exchange>) -> bool
    decreases dialogue.len(),
{
    dialogue.len() == 0 || (s.pending == dialogue.first().request && conducts(
        stepped(s, dialogue.first().reply),
        dialogue.drop_first(),
    ))
}

/// The state of the walker after the replies of the dialogue.
pub open spec fn after(s: RunnerView, dialogue: Seq<Exchange>) -> RunnerView
    decreases dialogue.len(),
{
    if dialogue.len() == 0 {
        s
    } else {
        after(stepped(s, dialogue.first().reply), dialogue.drop_first())
    }
}

/// A dialogue in two parts is conducted part by part.
pub proof fn lemma_conducts_both(s: RunnerView, first: Seq<Exchange>, second: Seq<Exchange>)
    requires
        conducts(s, first),
        conducts(after(s, first), second),
    ensures
        conducts(s, first + second),
        after(s, first + second) == after(after(s, first), second),
    decreases first.len(),
{
    if first.len() == 0 {
        assert(first + second =~= second);
    } else {
        let next = stepped(s, first.first().reply);
        lemma_conducts_both(next, first.drop_first(), second);
        assert((first + second).drop_first() =~= first.drop_first() + second);
    }
}

/// A dialogue is conducted exchange by exchange: where the first request is
/// the pending one and the rest is conducted from the state after its reply,
/// the whole is conducted, and ends where the rest ends.
pub proof fn lemma_conducts_then(s: RunnerView, first: Exchange, rest: Seq<Exchange>)
    requires
        s.pending == first.request,
        conducts(stepped(s, first.reply), rest),
    ensures
        conducts(s, seq![first] + rest),
        after(s, seq![first] + rest) == after(stepped(s, first.reply), rest),
{
    let whole = seq![first] + rest;
    assert(whole.first() == first);
    assert(whole.drop_first() =~= rest);
}

/// The walker inside the directory `path`, of which `taken` entries have been
/// taken up, and with the state `base` around it: about to go on there.
pub open spec fn inside(base: RunnerView, path: Seq<char>, entries: Seq<Seq<char>>, taken: int)
    -> RunnerView {
    advanced(
        RunnerView {
            stack: base.stack.push(FrameView { path, entries, next: taken }),
            ..base
        },
    )
}

/// The rename of the root of `t` is conducted as `renaming` says, and leaves
/// the walker where `settled` puts it.
pub proof fn lemma_renaming(t: Tree, s: RunnerView)
    requires
        s.pending == RequestView::IsDir(t.path),
    ensures
        conducts(s, renaming(t, s)),
        after(s, renaming(t, s)) == settled(s, outcome_of(t, s)),
{
    let d = renaming(t, s);
    let s1 = stepped(s, d[0].reply);
    let s2 = stepped(s1, d[1].reply);
    lemma_conducts_then(s2, d[2], Seq::empty());
    lemma_conducts_then(s1, d[1], seq![d[2]] + Seq::empty());
    lemma_conducts_then(s, d[0], seq![d[1]] + (seq![d[2]] + Seq::empty()));
    assert(d =~= seq![d[0]] + (seq![d[1]] + (seq![d[2]] + Seq::empty())));
}

/// The walker visits `t` in post-order: from the question whether the root
/// of `t` is a real directory it conducts the dialogue `visit(t, s)`, and ends
/// where `settled` puts it, with the root settled and the stack as it was.
pub proof fn lemma_visit(t: Tree, s: RunnerView)
    requires
        s.pending == RequestView::IsRealDir(t.path),
    ensures
        conducts(s, visit(t, s)),
        after(s, visit(t, s)) == settled(s, outcome_of(t, s)),
    decreases t, 0nat,
{
    let ask = Exchange {
        request: RequestView::IsRealDir(t.path),
        reply: ReplyView::Flag(t.entries is Some),
    };
    let s1 = stepped(s, ask.reply);
    match t.entries {
        Some(entries) => {
            let list = Exchange {
                request: RequestView::List(t.path),
                reply: ReplyView::Entries(paths(entries)),
            };
            let s2 = stepped(s1, list.reply);
            assert(s2 == inside(s1, t.path, paths(entries), 0));
            lemma_visits(entries, s1, t.path, entries.len());
            let s3 = inside(s1, t.path, paths(entries), entries.len() as int);
            let inner = visits(entries, s, entries.len());
            assert(visits(entries, s1, entries.len()) == inner) by {
                lemma_visits_settings(entries, s1, s, entries.len());
            }
            let pushed = RunnerView {
                stack: s1.stack.push(
                    FrameView {
                        path: t.path,
                        entries: paths(entries),
                        next: entries.len() as int,
                    },
                ),
                ..s1
            };
            assert(pushed.stack.drop_last() =~= s1.stack);
            assert(s3 == RunnerView { pending: RequestView::IsDir(t.path), ..s1 });
            lemma_renaming(t, s3);
            assert(renaming(t, s3) == renaming(t, s));
            assert(outcome_of(t, s3) == outcome_of(t, s));
            assert(settled(s3, outcome_of(t, s)) == settled(s, outcome_of(t, s)));
            lemma_conducts_both(s2, inner, renaming(t, s));
            lemma_conducts_then(s1, list, inner + renaming(t, s));
            lemma_conducts_then(s, ask, seq![list] + (inner + renaming(t, s)));
            assert(visit(t, s) =~= seq![ask] + (seq![list] + (inner + renaming(t, s))));
        },
        None => {
            lemma_renaming(t, s1);
            assert(renaming(t, s1) == renaming(t, s));
            assert(outcome_of(t, s1) == outcome_of(t, s));
            assert(settled(s1, outcome_of(t, s)) == settled(s, outcome_of(t, s)));
            lemma_conducts_then(s, ask, renaming(t, s));
            assert(visit(t, s) =~= seq![ask] + renaming(t, s));
        },
    }
}

/// The dialogue of a visit depends on the settings of the walker only.
pub proof fn lemma_visit_settings(t: Tree, a: RunnerView, b: RunnerView)
    requires
        a.replacement == b.replacement,
        a.mode == b.mode,
        a.dry_run == b.dry_run,
    ensures
        visit(t, a) == visit(t, b),
        outcome_of(t, a) == outcome_of(t, b),
    decreases t, 0nat,
{
    match t.entries {
        Some(entries) => {
            lemma_visits_settings(entries, a, b, entries.len());
        },
        None => {},
    }
}

/// The dialogue of several visits depends on the settings of the walker only.
pub proof fn lemma_visits_settings(trees: Seq<Tree>, a: RunnerView, b: RunnerView, n: nat)
    requires
        a.replacement == b.replacement,
        a.mode == b.mode,
        a.dry_run == b.dry_run,
    ensures
        visits(trees, a, n) == visits(trees, b, n),
    decreases trees, n,
{
    if n > 0 && n <= trees.len() {
        lemma_visits_settings(trees, a, b, (n - 1) as nat);
        lemma_visit_settings(trees[n - 1], a, b);
    }
}

/// Inside a directory the walker visits the entries in order: from the state
/// with no entry taken it conducts the visits of the first `n` entries, and is
/// then about to go on with `n` entries taken.
pub proof fn lemma_visits(trees: Seq<Tree>, base: RunnerView, path: Seq<char>, n: nat)
    requires
        n <= trees.len(),
    ensures
        conducts(inside(base, path, paths(trees), 0), visits(trees, base, n)),
        after(inside(base, path, paths(trees), 0), visits(trees, base, n)) == inside(
            base,
            path,
            paths(trees),
            n as int,
        ),
    decreases trees, n,
{
    if n > 0 {
        let start = inside(base, path, paths(trees), 0);
        let before = visits(trees, base, (n - 1) as nat);
        lemma_visits(trees, base, path, (n - 1) as nat);
        let child = trees[n - 1];
        let at = inside(base, path, paths(trees), n - 1);
        let frame = FrameView { path, entries: paths(trees), next: n - 1 };
        let pushed = RunnerView { stack: base.stack.push(frame), ..base };
        assert(pushed.stack.last() == frame);
        assert(paths(trees)[n - 1] == child.path);
        assert(at.pending == RequestView::IsRealDir(child.path));
        lemma_visit(child, at);
        lemma_visit_settings(child, at, base);
        let taken = FrameView { next: n as int, ..frame };
        assert(at.stack == pushed.stack.drop_last().push(taken));
        assert(pushed.stack.drop_last() =~= base.stack);
        assert(at.stack.len() > 0);
        assert(settled(at, outcome_of(child, at)) == advanced(at));
        assert(at.stack.last() == taken);
        assert(advanced(at) == inside(base, path, paths(trees), n as int)) by {
            let again = RunnerView { stack: base.stack.push(taken), ..base };
            assert(again.stack == at.stack);
            assert(again.stack.drop_last() =~= at.stack.drop_last());
        }
        lemma_conducts_both(start, before, visit(child, base));
    }
}

/// The dialogue that deals with one target: its rename alone where
/// directories are not walked; else the question whether it exists, and then
/// the visit of it, or the report that it is missing.
pub open spec fn target_dialogue(t: Tree, s: RunnerView) -> Seq<Exchange> {
    if !s.recursive {
        renaming(t, s)
    } else if t.found {
        seq![Exchange { request: RequestView::Exists(t.path), reply: ReplyView::Flag(true) }]
            + visit(t, s)
    } else {
        seq![
            Exchange { request: RequestView::Exists(t.path), reply: ReplyView::Flag(false) },
            Exchange {
                request: RequestView::Report {
                    line: report_line(RenameAction::Missing, t.path, t.path),
                    outcome: t.path,
                },
                reply: ReplyView::Done,
            },
        ]
    }
}

/// The path that stands for a target when the run is done with it.
pub open spec fn target_outcome(t: Tree, s: RunnerView) -> Seq<char> {
    if s.recursive && !t.found {
        t.path
    } else {
        outcome_of(t, s)
    }
}

/// The dialogue of a run over the first `n` targets, one after the other.
pub open spec fn session(targets: Seq<Tree>, s: RunnerView, n: nat) -> Seq<Exchange>
    decreases n,
{
    if n == 0 || n > targets.len() {
        Seq::empty()
    } else {
        session(targets, s, (n - 1) as nat) + target_dialogue(targets[n - 1], s)
    }
}

/// The run between two targets: `n` targets are done, the last of them with
/// the outcome given, and the next one is about to be taken up.
pub open spec fn between(base: RunnerView, n: int, outcome: Option<Seq<char>>) -> RunnerView {
    begun(RunnerView { next_target: n, outcome, ..base })
}

/// The walker deals with one target as `target_dialogue` says, and ends where
/// `settled` puts it.
pub proof fn lemma_target(t: Tree, s: RunnerView)
    requires
        s.pending == if s.recursive {
            RequestView::Exists(t.path)
        } else {
            RequestView::IsDir(t.path)
        },
    ensures
        conducts(s, target_dialogue(t, s)),
        after(s, target_dialogue(t, s)) == settled(s, target_outcome(t, s)),
{
    if !s.recursive {
        lemma_renaming(t, s);
    } else if t.found {
        let ask = Exchange { request: RequestView::Exists(t.path), reply: ReplyView::Flag(true) };
        let s1 = stepped(s, ask.reply);
        lemma_visit(t, s1);
        lemma_visit_settings(t, s1, s);
        lemma_conducts_then(s, ask, visit(t, s));
    } else {
        let d = target_dialogue(t, s);
        let s1 = stepped(s, d[0].reply);
        lemma_conducts_then(s1, d[1], Seq::empty());
        lemma_conducts_then(s, d[0], seq![d[1]] + Seq::empty());
        assert(d =~= seq![d[0]] + (seq![d[1]] + Seq::empty()));
    }
}

/// A run takes its targets in the order given: started on the paths of
/// `targets`, the walker conducts the dialogues of the first `n` targets one
/// after the other, each one through before the next begins, and then stands
/// between two targets with the outcome of the last.
pub proof fn lemma_run_in_order(
    targets: Seq<Tree>,
    recursive: bool,
    dry_run: bool,
    replacement: char,
    mode: SanitizeMode,
    n: nat,
)
    requires
        n <= targets.len(),
    ensures
        ({
            let s = started(paths(targets), recursive, dry_run, replacement, mode);
            &&& conducts(s, session(targets, s, n))
            &&& after(s, session(targets, s, n)) == between(
                s,
                n as int,
                if n == 0 {
                    None
                } else {
                    Some(target_outcome(targets[n - 1], s))
                },
            )
            &&& n == targets.len() ==> after(s, session(targets, s, n)).pending is Finished
        }),
    decreases n,
{
    let s = started(paths(targets), recursive, dry_run, replacement, mode);
    if n > 0 {
        lemma_run_in_order(targets, recursive, dry_run, replacement, mode, (n - 1) as nat);
        let t = targets[n - 1];
        let before = session(targets, s, (n - 1) as nat);
        let at = after(s, before);
        assert(paths(targets)[n - 1] == t.path);
        lemma_target(t, at);
        assert(target_dialogue(t, at) == target_dialogue(t, s)) by {
            lemma_visit_settings(t, at, s);
        }
        assert(target_outcome(t, at) == target_outcome(t, s)) by {
            lemma_visit_settings(t, at, s);
        }
        lemma_conducts_both(s, before, target_dialogue(t, s));
    }
}

/// The whole walk of one tree that is there: the walker asks whether the root
/// exists, visits the tree in post-order, and is finished, with the outcome of
/// the root as the outcome of the walk.
pub proof fn lemma_walk_is_post_order(
    t: Tree,
    dry_run: bool,
    replacement: char,
    mode: SanitizeMode,
)
    requires
        t.found,
    ensures
        ({
            let s = started(seq![t.path], true, dry_run, replacement, mode);
            let dialogue = seq![
                Exchange { request: RequestView::Exists(t.path), reply: ReplyView::Flag(true) },
            ] + visit(t, s);
            &&& conducts(s, dialogue)
            &&& after(s, dialogue).pending is Finished
            &&& after(s, dialogue).outcome == Some(outcome_of(t, s))
        }),
{
    let s = started(seq![t.path], true, dry_run, replacement, mode);
    lemma_target(t, s);
}

/// The walk of a path that is not there: the walker reports that it is
/// missing, and is finished with the path as it was.
pub proof fn lemma_walk_of_missing_path(
    t: Tree,
    dry_run: bool,
    replacement: char,
    mode: SanitizeMode,
)
    requires
        !t.found,
    ensures
        ({
            let s = started(seq![t.path], true, dry_run, replacement, mode);
            let dialogue = seq![
                Exchange { request: RequestView::Exists(t.path), reply: ReplyView::Flag(false) },
                Exchange {
                    request: RequestView::Report {
                        line: report_line(RenameAction::Missing, t.path, t.path),
                        outcome: t.path,
                    },
                    reply: ReplyView::Done,
                },
            ];
            &&& conducts(s, dialogue)
            &&& after(s, dialogue).pending is Finished
            &&& after(s, dialogue).outcome == Some(t.path)
        }),
{
    let s = started(seq![t.path], true, dry_run, replacement, mode);
    lemma_target(t, s);
}

/// The request that settles the root of `t`: its rename, or the report of
/// why it is not renamed.
pub open spec fn settlement_of(t: Tree, s: RunnerView) -> RequestView {
    probed(t.path, target_of(t, s), t.same, t.old_exists, t.new_exists, s.dry_run)
}

/// The paths of `t` in post-order: everything below a directory, entry by
/// entry, and then the directory.
pub open spec fn post_order(t: Tree) -> Seq<Tree>
    decreases t, 0nat,
{
    match t.entries {
        Some(entries) => post_orders(entries, entries.len()),
        None => Seq::empty(),
    }.push(t)
}

/// The paths of the first `n` trees in post-order, tree after tree.
pub open spec fn post_orders(trees: Seq<Tree>, n: nat) -> Seq<Tree>
    decreases trees, n,
{
    if n == 0 || n > trees.len() {
        Seq::empty()
    } else {
        post_orders(trees, (n - 1) as nat) + post_order(trees[n - 1])
    }
}

/// The requests that settle the roots of the trees, in order.
pub open spec fn settlements_of(trees: Seq<Tree>, s: RunnerView) -> Seq<RequestView> {
    Seq::new(trees.len(), |i: int| settlement_of(trees[i], s))
}

/// The requests of the dialogue that settle a path: its reports and renames.
pub open spec fn settlements(dialogue: Seq<Exchange>) -> Seq<RequestView>
    decreases dialogue.len(),
{
    if dialogue.len() == 0 {
        Seq::empty()
    } else if dialogue.last().request is Report || dialogue.last().request is Rename {
        settlements(dialogue.drop_last()).push(dialogue.last().request)
    } else {
        settlements(dialogue.drop_last())
    }
}

/// The settlements of a dialogue in two parts are those of the parts.
pub proof fn lemma_settlements_of_both(first: Seq<Exchange>, second: Seq<Exchange>)
    ensures
        settlements(first + second) == settlements(first) + settlements(second),
    decreases second.len(),
{
    if second.len() == 0 {
        assert(first + second =~= first);
        assert(settlements(first) + settlements(second) =~= settlements(first));
    } else {
        lemma_settlements_of_both(first, second.drop_last());
        assert((first + second).drop_last() =~= first + second.drop_last());
        assert((first + second).last() == second.last());
        assert(settlements(first + second) =~= settlements(first) + settlements(second));
    }
}

/// The settlements of a dialogue that starts with `first`.
pub proof fn lemma_settlements_after(first: Exchange, rest: Seq<Exchange>)
    ensures
        settlements(seq![first] + rest) == if first.request is Report || first.request is Rename {
            seq![first.request] + settlements(rest)
        } else {
            settlements(rest)
        },
{
    let one = seq![first];
    assert(one.drop_last() =~= Seq::<Exchange>::empty());
    assert(settlements(one.drop_last()) =~= Seq::<RequestView>::empty());
    assert(one.last() == first);
    lemma_settlements_of_both(one, rest);
    if first.request is Report || first.request is Rename {
        assert(settlements(one) =~= seq![first.request]);
    } else {
        assert(settlements(one) + settlements(rest) =~= settlements(rest));
    }
}

/// A visit settles every path of the tree once, in post-order: the reports
/// and renames of its dialogue are the settlements of the paths of the tree,
/// those below a directory before the directory.
pub proof fn lemma_visit_settles_in_post_order(t: Tree, s: RunnerView)
    ensures
        settlements(visit(t, s)) == settlements_of(post_order(t), s),
    decreases t, 0nat,
{
    let ask = Exchange {
        request: RequestView::IsRealDir(t.path),
        reply: ReplyView::Flag(t.entries is Some),
    };
    let d = renaming(t, s);
    lemma_settlements_after(d[2], Seq::empty());
    lemma_settlements_after(d[1], seq![d[2]] + Seq::empty());
    lemma_settlements_after(d[0], seq![d[1]] + (seq![d[2]] + Seq::empty()));
    assert(d =~= seq![d[0]] + (seq![d[1]] + (seq![d[2]] + Seq::empty())));
    assert(settlements(Seq::<Exchange>::empty()) =~= Seq::<RequestView>::empty());
    assert(settlements(d) =~= seq![settlement_of(t, s)]);
    match t.entries {
        Some(entries) => {
            let list = Exchange {
                request: RequestView::List(t.path),
                reply: ReplyView::Entries(paths(entries)),
            };
            let inner = visits(entries, s, entries.len());
            let below = post_orders(entries, entries.len());
            lemma_visits_settle_in_post_order(entries, s, entries.len());
            lemma_settlements_of_both(inner, d);
            lemma_settlements_after(list, inner + d);
            lemma_settlements_after(ask, seq![list] + (inner + d));
            assert(visit(t, s) =~= seq![ask] + (seq![list] + (inner + d)));
            assert(settlements_of(below.push(t), s) =~= settlements_of(below, s) + seq![
                settlement_of(t, s),
            ]);
        },
        None => {
            lemma_settlements_after(ask, d);
            assert(visit(t, s) =~= seq![ask] + d);
            assert(settlements_of(Seq::<Tree>::empty().push(t), s) =~= seq![settlement_of(t, s)]);
        },
    }
}

/// The visits of the first `n` trees settle their paths in post-order, tree
/// after tree.
pub proof fn lemma_visits_settle_in_post_order(trees: Seq<Tree>, s: RunnerView, n: nat)
    ensures
        settlements(visits(trees, s, n)) == settlements_of(post_orders(trees, n), s),
    decreases trees, n,
{
    if n == 0 || n > trees.len() {
        assert(settlements_of(Seq::<Tree>::empty(), s) =~= Seq::<RequestView>::empty());
    } else {
        lemma_visits_settle_in_post_order(trees, s, (n - 1) as nat);
        lemma_visit_settles_in_post_order(trees[n - 1], s);
        let before = visits(trees, s, (n - 1) as nat);
        lemma_settlements_of_both(before, visit(trees[n - 1], s));
        assert(settlements_of(post_orders(trees, n), s) =~= settlements_of(
            post_orders(trees, (n - 1) as nat),
            s,
        ) + settlements_of(post_order(trees[n - 1]), s));
    }
}

/// Where nothing stands in the way, a path is settled by its rename: where
/// the path is not its own sanitized path, exists, and the sanitized path is
/// free, and the run is no dry run, the walker asks for the rename of the path
/// to its sanitized path, and that path stands afterwards.
pub proof fn lemma_clear_path_is_renamed(t: Tree, s: RunnerView)
    requires
        !t.same,
        t.old_exists,
        !t.new_exists,
        !s.dry_run,
    ensures
        settlement_of(t, s) == (RequestView::Rename {
            old: t.path,
            new: target_of(t, s),
            line: report_line(RenameAction::Change, t.path, target_of(t, s)),
        }),
        outcome_of(t, s) == target_of(t, s),
{
}

/// The walk of a tree that is there, in a run that renames: every path of
/// the tree is settled once, those below a directory before the directory, and
/// where nothing stands in the way of the rename of the root, the walk ends
/// with the sanitized path of the root as its outcome.
pub proof fn lemma_walk_settles_every_path(t: Tree, replacement: char, mode: SanitizeMode)
    requires
        t.found,
    ensures
        ({
            let s = started(seq![t.path], true, false, replacement, mode);
            let dialogue = seq![
                Exchange { request: RequestView::Exists(t.path), reply: ReplyView::Flag(true) },
            ] + visit(t, s);
            &&& conducts(s, dialogue)
            &&& settlements(dialogue) == settlements_of(post_order(t), s)
            &&& !t.same && t.old_exists && !t.new_exists ==> after(s, dialogue).outcome == Some(
                sanitized_path(t.path, t.is_dir, replacement, mode),
            )
        }),
{
    let s = started(seq![t.path], true, false, replacement, mode);
    let ask = Exchange { request: RequestView::Exists(t.path), reply: ReplyView::Flag(true) };
    lemma_walk_is_post_order(t, false, replacement, mode);
    lemma_visit_settles_in_post_order(t, s);
    lemma_settlements_after(ask, visit(t, s));
}

} // verus!
