//! The window scheduler: the set of open picker windows, one tick of the
//! main loop, and the guarantees around it — every window is visited once
//! per tick, a terminal outcome leads to exactly one emission followed by
//! persistence and deregistration, and an idle tick backs off instead of
//! spinning. Rendering and event polling live outside the library; a tick
//! receives what they observed and answers with the instructions to carry
//! out.

use vstd::prelude::*;

use crate::config::Config;
use crate::config::DialogStorage;
use crate::config::DialogStorageV;
use crate::dbus::FilePortal;
use crate::dbus::RePayload;
use crate::dbus::Registry;
use crate::dbus::Req;
use crate::dbus::ReqV;
use crate::dbus::ResponsePayload;
use crate::dbus::file_uri;

verus! {

/// The picker's state machine. A window is created picking; the dialog ends
/// picked or cancelled, and the OS can close the window at any time.
#[derive(Debug, Clone, Copy, PartialEq, Eq, Structural)]
pub enum PickerState {
    Idle,
    Picking,
    Picked,
    Cancelled,
    Closed,
}

/// One open picker window: the request it belongs to for its whole lifetime,
/// where its state machine stands, and the picker UI state it carries, seeded
/// from the persisted state at creation and written back at destruction.
pub struct FileChooserWin {
    pub req: Req,
    pub state: PickerState,
    pub storage: DialogStorage,
}

/// The mathematical value of a [`FileChooserWin`].
pub ghost struct WinV {
    pub req: ReqV,
    pub state: PickerState,
    pub storage: DialogStorageV,
}

impl View for FileChooserWin {
    type V = WinV;

    open spec fn view(&self) -> WinV {
        WinV { req: self.req@, state: self.state, storage: self.storage@ }
    }
}

/// What the GUI layer observed for one window during one tick.
pub enum WinEvent {
    /// The window is still open and undecided.
    StillOpen,
    /// The OS closed the window out from under the dialog.
    OsClose,
    /// The dialog reports that the user cancelled.
    PickerCancelled,
    /// The dialog reports this picked absolute path.
    PickerPicked(String),
}

/// One instruction back to the outside layer, to be carried out in order.
pub enum Action {
    /// Emit the `Response` signal with this payload at this object path.
    Emit(String, ResponsePayload),
    /// Flush this persisted state to durable storage.
    SaveConfig(Config),
    /// Remove the request object at this path from the server.
    Deregister(String),
    /// Nothing was active this tick: back off for a bounded interval.
    Sleep,
}

/// Whether the event ends the window's lifetime this tick.
pub open spec fn resolved(ev: WinEvent) -> bool {
    !(ev is StillOpen)
}

/// Whether the event calls for a `Response` emission.
pub open spec fn responds(ev: WinEvent) -> bool {
    ev is PickerCancelled || ev is PickerPicked
}

/// The payload owed for a terminal event, per the wire encoding.
pub open spec fn payload_for(ev: WinEvent, r: ResponsePayload) -> bool {
    match ev {
        WinEvent::PickerPicked(f) => {
            &&& r.code == 0u32
            &&& r.results@.len() == 1
            &&& r.results@[0].0@ == "uris"@
            &&& r.results@[0].1@.map_values(|s: String| s@) == seq![file_uri(f@)]
        },
        WinEvent::PickerCancelled => r.code == 1u32 && r.results@.len() == 0,
        _ => false,
    }
}

/// An emission for the request object at path `p`.
pub open spec fn is_emit_for(a: Action, p: Seq<char>) -> bool {
    a matches Action::Emit(q, _) && q@ == p
}

/// A deregistration of the request object at path `p`.
pub open spec fn is_dereg_for(a: Action, p: Seq<char>) -> bool {
    a matches Action::Deregister(q) && q@ == p
}

/// How many emissions for `p` the instruction list holds.
pub open spec fn emit_count(acts: Seq<Action>, p: Seq<char>) -> nat
    decreases acts.len(),
{
    if acts.len() == 0 {
        0
    } else {
        emit_count(acts.drop_last(), p) + (if is_emit_for(acts.last(), p) {
            1nat
        } else {
            0nat
        })
    }
}

/// How many deregistrations of `p` the instruction list holds.
pub open spec fn dereg_count(acts: Seq<Action>, p: Seq<char>) -> nat
    decreases acts.len(),
{
    if acts.len() == 0 {
        0
    } else {
        dereg_count(acts.drop_last(), p) + (if is_dereg_for(acts.last(), p) {
            1nat
        } else {
            0nat
        })
    }
}

/// How many persistence flushes the instruction list holds.
pub open spec fn save_count(acts: Seq<Action>) -> nat
    decreases acts.len(),
{
    if acts.len() == 0 {
        0
    } else {
        save_count(acts.drop_last()) + (if acts.last() is SaveConfig {
            1nat
        } else {
            0nat
        })
    }
}

/// Every emission for `p` stands before every deregistration of `p`: no
/// signal is ever ordered after the object has become unaddressable.
pub open spec fn emits_precede_deregs(acts: Seq<Action>, p: Seq<char>) -> bool {
    forall|i: int, j: int|
        0 <= i < acts.len() && 0 <= j < acts.len() && is_emit_for(acts[i], p) && is_dereg_for(
            acts[j],
            p,
        ) ==> i < j
}

/// How many of the observed events are terminal.
pub open spec fn resolved_count(evs: Seq<WinEvent>) -> nat
    decreases evs.len(),
{
    if evs.len() == 0 {
        0
    } else {
        resolved_count(evs.drop_last()) + (if resolved(evs.last()) {
            1nat
        } else {
            0nat
        })
    }
}

/// The windows as mathematical values.
pub open spec fn wins_view(ws: Seq<FileChooserWin>) -> Seq<WinV> {
    ws.map_values(|w: FileChooserWin| w@)
}

/// The windows that survive the tick: those whose event is not terminal, in
/// their original order.
pub open spec fn retained_views(ws: Seq<WinV>, evs: Seq<WinEvent>) -> Seq<WinV>
    decreases ws.len(),
{
    if ws.len() == 0 || evs.len() == 0 {
        Seq::empty()
    } else if resolved(evs[0]) {
        retained_views(ws.drop_first(), evs.drop_first())
    } else {
        seq![ws[0]] + retained_views(ws.drop_first(), evs.drop_first())
    }
}

/// The persisted state after the tick: each terminal window writes its own
/// picker state over it, in visiting order.
pub open spec fn cfg_after(ws: Seq<WinV>, evs: Seq<WinEvent>, init: DialogStorageV) -> DialogStorageV
    decreases ws.len(),
{
    if ws.len() == 0 || evs.len() == 0 {
        init
    } else {
        cfg_after(
            ws.drop_first(),
            evs.drop_first(),
            if resolved(evs[0]) {
                ws[0].storage
            } else {
                init
            },
        )
    }
}

/// Whether `q` is the path of one of these windows.
pub open spec fn is_window_path(ws: Seq<WinV>, q: Seq<char>) -> bool {
    exists|i: int| 0 <= i < ws.len() && ws[i].req.path == q
}

/// Counting over a grown instruction list: one more instruction raises each
/// count by exactly its own contribution.
proof fn lemma_counts_push(acts: Seq<Action>, a: Action)
    ensures
        forall|p: Seq<char>| #[trigger]
            emit_count(acts.push(a), p) == emit_count(acts, p) + (if is_emit_for(a, p) {
                1nat
            } else {
                0nat
            }),
        forall|p: Seq<char>| #[trigger]
            dereg_count(acts.push(a), p) == dereg_count(acts, p) + (if is_dereg_for(a, p) {
                1nat
            } else {
                0nat
            }),
        save_count(acts.push(a)) == save_count(acts) + (if a is SaveConfig {
            1nat
        } else {
            0nat
        }),
{
    assert(acts.push(a).drop_last() =~= acts);
    assert(acts.push(a).last() == a);
}

/// A path with no deregistration counted has no deregistration anywhere in
/// the list.
proof fn lemma_zero_dereg(acts: Seq<Action>, p: Seq<char>)
    requires
        dereg_count(acts, p) == 0,
    ensures
        forall|j: int| 0 <= j < acts.len() ==> !is_dereg_for(acts[j], p),
    decreases acts.len(),
{
    if acts.len() > 0 {
        lemma_zero_dereg(acts.drop_last(), p);
        assert forall|j: int| 0 <= j < acts.len() implies !is_dereg_for(acts[j], p) by {
            if j < acts.len() - 1 {
                assert(acts.drop_last()[j] == acts[j]);
            }
        }
    }
}

/// A path with no emission counted has no emission anywhere in the list.
proof fn lemma_zero_emit(acts: Seq<Action>, p: Seq<char>)
    requires
        emit_count(acts, p) == 0,
    ensures
        forall|j: int| 0 <= j < acts.len() ==> !is_emit_for(acts[j], p),
    decreases acts.len(),
{
    if acts.len() > 0 {
        lemma_zero_emit(acts.drop_last(), p);
        assert forall|j: int| 0 <= j < acts.len() implies !is_emit_for(acts[j], p) by {
            if j < acts.len() - 1 {
                assert(acts.drop_last()[j] == acts[j]);
            }
        }
    }
}

/// Tears one window down: in order, the owed emission (when one is owed),
/// the persisted-state flush, and the deregistration, appended to the
/// instruction list; the persisted state takes the window's picker state.
fn resolve_window(
    path: String,
    storage: DialogStorage,
    payload: Option<ResponsePayload>,
    registry: &mut Registry,
    cfg: &mut Config,
    acts: &mut Vec<Action>,
)
    requires
        old(registry).wf(),
        old(registry).registered(path@),
        emit_count(old(acts)@, path@) == 0,
        dereg_count(old(acts)@, path@) == 0,
    ensures
        final(registry).wf(),
        !final(registry).registered(path@),
        forall|q: Seq<char>|
            q != path@ ==> final(registry).registered(q) == old(registry).registered(q),
        final(cfg)@ == storage@,
        final(acts)@.len() >= old(acts)@.len(),
        forall|k: int| 0 <= k < old(acts)@.len() ==> final(acts)@[k] == old(acts)@[k],
        emit_count(final(acts)@, path@) == (if payload is Some {
            1nat
        } else {
            0nat
        }),
        dereg_count(final(acts)@, path@) == 1,
        save_count(final(acts)@) == save_count(old(acts)@) + 1,
        forall|q: Seq<char>|
            q != path@ ==> emit_count(final(acts)@, q) == emit_count(old(acts)@, q) && dereg_count(
                final(acts)@,
                q,
            ) == dereg_count(old(acts)@, q),
        forall|q: Seq<char>|
            #[trigger] emits_precede_deregs(old(acts)@, q) ==> emits_precede_deregs(
                final(acts)@,
                q,
            ),
        forall|k: int|
            0 <= k < final(acts)@.len() && is_emit_for(#[trigger] final(acts)@[k], path@) ==> (
            final(acts)@[k] matches Action::Emit(_, r) && payload == Some(r)),
        forall|q: Seq<char>, k: int|
            #![trigger is_emit_for(final(acts)@[k], q)]
            #![trigger is_dereg_for(final(acts)@[k], q)]
            old(acts)@.len() <= k < final(acts)@.len() && q != path@ ==> !is_emit_for(
                final(acts)@[k],
                q,
            ) && !is_dereg_for(final(acts)@[k], q),
        forall|k: int|
            old(acts)@.len() <= k < final(acts)@.len() ==> !(#[trigger] final(acts)@[k] is Sleep),
{
    let ghost p = path@;
    let ghost a0 = acts@;
    proof {
        lemma_zero_emit(a0, p);
        lemma_zero_dereg(a0, p);
    }
    match payload {
        Some(r) => {
            let ghost b0 = acts@;
            acts.push(Action::Emit(path.clone(), r));
            proof {
                assert(acts@ == b0.push(acts@.last()));
                assert(is_emit_for(acts@.last(), p));
                lemma_counts_push(b0, acts@.last());
                lemma_precede_push(b0, acts@.last());
            }
        },
        None => {},
    }
    cfg.file_dia_storage = storage;
    let saved = cfg.snapshot();
    let ghost b1 = acts@;
    acts.push(Action::SaveConfig(saved));
    proof {
        assert(acts@ == b1.push(acts@.last()));
        lemma_counts_push(b1, acts@.last());
        lemma_precede_push(b1, acts@.last());
    }
    let dr = registry.deregister(&path);
    proof {
        assert(dr == Result::<(), crate::dbus::RegistryError>::Ok(()));
    }
    let ghost b2 = acts@;
    acts.push(Action::Deregister(path));
    proof {
        assert(acts@ == b2.push(acts@.last()));
        assert(is_dereg_for(acts@.last(), p));
        lemma_counts_push(b2, acts@.last());
        lemma_precede_push(b2, acts@.last());
        assert forall|k: int|
            0 <= k < acts@.len() && is_emit_for(#[trigger] acts@[k], p) implies (acts@[k]
            matches Action::Emit(_, r) && payload == Some(r)) by {
            if k < a0.len() {
                assert(acts@[k] == a0[k]);
            }
        }
        assert forall|q: Seq<char>|
            #[trigger] emits_precede_deregs(a0, q) implies emits_precede_deregs(acts@, q) by {
            if q == p {
                assert(emits_precede_deregs(acts@, q)) by {
                    assert forall|x: int, y: int|
                        0 <= x < acts@.len() && 0 <= y < acts@.len() && is_emit_for(acts@[x], q)
                            && is_dereg_for(acts@[y], q) implies x < y by {
                        if x < a0.len() {
                            assert(acts@[x] == a0[x]);
                        }
                        if y < a0.len() {
                            assert(acts@[y] == a0[y]);
                        }
                        assert(y == acts@.len() - 1);
                    }
                }
            }
        }
    }
}

/// Emission order survives growing the list: appending anything keeps every
/// existing precedence, and an emission may be appended as long as the path
/// has no deregistration yet.
proof fn lemma_precede_push(acts: Seq<Action>, a: Action)
    ensures
        forall|q: Seq<char>|
            emits_precede_deregs(acts, q) && !is_emit_for(a, q) ==> #[trigger] emits_precede_deregs(
                acts.push(a),
                q,
            ),
        forall|q: Seq<char>|
            emits_precede_deregs(acts, q) && dereg_count(acts, q) == 0 && !is_dereg_for(a, q)
                ==> #[trigger] emits_precede_deregs(acts.push(a), q),
{
    let n = acts.len() as int;
    assert forall|q: Seq<char>|
        emits_precede_deregs(acts, q) && !is_emit_for(a, q) implies #[trigger] emits_precede_deregs(
        acts.push(a),
        q,
    ) by {
        assert forall|i: int, j: int|
            0 <= i < acts.push(a).len() && 0 <= j < acts.push(a).len() && is_emit_for(
                acts.push(a)[i],
                q,
            ) && is_dereg_for(acts.push(a)[j], q) implies i < j by {
            if i < n && j < n {
                assert(acts.push(a)[i] == acts[i]);
                assert(acts.push(a)[j] == acts[j]);
            } else if i == n {
                assert(acts.push(a)[i] == a);
            } else if j == n {
                assert(i < j);
            }
        }
    }
    assert forall|q: Seq<char>|
        emits_precede_deregs(acts, q) && dereg_count(acts, q) == 0 && !is_dereg_for(a, q) implies #[trigger] emits_precede_deregs(
        acts.push(a),
        q,
    ) by {
        lemma_zero_dereg(acts, q);
        assert forall|i: int, j: int|
            0 <= i < acts.push(a).len() && 0 <= j < acts.push(a).len() && is_emit_for(
                acts.push(a)[i],
                q,
            ) && is_dereg_for(acts.push(a)[j], q) implies i < j by {
            if j < n {
                assert(acts.push(a)[j] == acts[j]);
            } else {
                assert(acts.push(a)[j] == a);
            }
        }
    }
}

/// Creates the window for a freshly dequeued request: bound to it one-to-one,
/// immediately picking, its picker seeded with the current persisted state.
pub fn spawn_window(req: Req, windows: &mut Vec<FileChooserWin>, frog_cfg: &Config)
    ensures
        wins_view(final(windows)@) == wins_view(old(windows)@).push(
            WinV { req: req@, state: PickerState::Picking, storage: frog_cfg@ },
        ),
{
    let storage = frog_cfg.file_dia_storage.snapshot();
    let w = FileChooserWin { req, state: PickerState::Picking, storage };
    windows.push(w);
    proof {
        assert(wins_view(windows@) =~= wins_view(old(windows)@).push(
            WinV { req: req@, state: PickerState::Picking, storage: frog_cfg@ },
        ));
    }
}

/// The windows the scheduler would create for queued requests: bound to them
/// in arrival order, picking, seeded with the persisted state.
pub open spec fn spawned_views(reqs: Seq<ReqV>, storage: DialogStorageV) -> Seq<WinV> {
    reqs.map_values(|r: ReqV| WinV { req: r, state: PickerState::Picking, storage })
}

/// What one tick owes each visited window: a response-worthy outcome is
/// emitted exactly once with the owed payload, a terminal window is
/// deregistered exactly once, and an undecided window is left emission-free,
/// deregistration-free and registered.
pub open spec fn window_outcomes_ok(
    ws: Seq<WinV>,
    evs: Seq<WinEvent>,
    acts: Seq<Action>,
    reg: Registry,
) -> bool {
    forall|i: int|
        0 <= i < evs.len() && i < ws.len() ==> {
            let p = ws[i].req.path;
            &&& (responds(#[trigger] evs[i]) ==> emit_count(acts, p) == 1)
            &&& (!responds(evs[i]) ==> emit_count(acts, p) == 0)
            &&& (resolved(evs[i]) ==> dereg_count(acts, p) == 1 && !reg.registered(p))
            &&& (!resolved(evs[i]) ==> dereg_count(acts, p) == 0 && reg.registered(p))
            &&& (forall|k: int|
                0 <= k < acts.len() && is_emit_for(#[trigger] acts[k], p) ==> (acts[k]
                    matches Action::Emit(_, r) && payload_for(evs[i], r)))
        }
}

/// The whole service is well formed: the registry holds no duplicate, every
/// open request — queued or already owning a window — is registered, and no
/// two open requests share an identity.
pub open spec fn service_wf(portal: FilePortal, windows: Seq<FileChooserWin>) -> bool {
    &&& portal.wf()
    &&& forall|i: int|
        0 <= i < windows.len() ==> portal.registry.registered(
            #[trigger] wins_view(windows)[i].req.path,
        )
    &&& forall|i: int, j: int|
        0 <= i < j < windows.len() ==> wins_view(windows)[i].req.path != wins_view(
            windows,
        )[j].req.path
    &&& forall|i: int, j: int|
        0 <= i < windows.len() && 0 <= j < portal.queue@.len() ==> wins_view(
            windows,
        )[i].req.path != portal.queue@[j].path
}

/// Accepting a fresh request keeps every open identity unique: registering a
/// path nobody holds and queueing the request for it cannot collide with any
/// open window or queued request.
pub proof fn lemma_accept_preserves_wf(
    oldp: FilePortal,
    newp: FilePortal,
    windows: Seq<FileChooserWin>,
    path: Seq<char>,
    title: Seq<char>,
)
    requires
        service_wf(oldp, windows),
        !oldp.registry.registered(path),
        newp.registry@ == oldp.registry@.push(path),
        newp.queue@ == oldp.queue@.push(ReqV { title, path }),
    ensures
        service_wf(newp, windows),
{
    let n = oldp.registry@.len() as int;
    assert forall|q: Seq<char>| oldp.registry.registered(q) implies newp.registry.registered(
        q,
    ) by {
        let k = choose|k: int| 0 <= k < oldp.registry@.len() && oldp.registry@[k] == q;
        assert(newp.registry@[k] == q);
    }
    assert(newp.registry@[n] == path);
    assert(newp.registry.registered(path));
    assert forall|a: int, b: int| 0 <= a < b < newp.registry@.len() implies newp.registry@[a]
        != newp.registry@[b] by {
        if b < n {
            assert(newp.registry@[a] == oldp.registry@[a]);
            assert(newp.registry@[b] == oldp.registry@[b]);
        } else {
            assert(newp.registry@[b] == path);
            assert(newp.registry@[a] == oldp.registry@[a]);
            if oldp.registry@[a] == path {
                assert(oldp.registry.registered(path));
            }
        }
    }
    assert forall|i: int|
        0 <= i < newp.queue@.len() implies newp.registry.registered(
        #[trigger] newp.queue@[i].path,
    ) by {
        if i < oldp.queue@.len() {
            assert(newp.queue@[i] == oldp.queue@[i]);
            assert(oldp.registry.registered(oldp.queue@[i].path));
        } else {
            assert(newp.queue@[i].path == path);
        }
    }
    assert forall|i: int, j: int| 0 <= i < j < newp.queue@.len() implies newp.queue@[i].path
        != newp.queue@[j].path by {
        if j < oldp.queue@.len() {
        } else {
            assert(newp.queue@[j].path == path);
            assert(oldp.registry.registered(oldp.queue@[i].path));
        }
    }
    assert forall|i: int, j: int|
        0 <= i < windows.len() && 0 <= j < newp.queue@.len() implies wins_view(
        windows,
    )[i].req.path != newp.queue@[j].path by {
        if j < oldp.queue@.len() {
            assert(newp.queue@[j] == oldp.queue@[j]);
        } else {
            assert(newp.queue@[j].path == path);
            assert(oldp.registry.registered(wins_view(windows)[i].req.path));
        }
    }
}

/// Every surviving window is one of the visited windows whose event was not
/// terminal, and survivors keep pairwise distinct identities.
proof fn lemma_retained_views_props(ws: Seq<WinV>, evs: Seq<WinEvent>)
    requires
        ws.len() == evs.len(),
        forall|a: int, b: int| 0 <= a < b < ws.len() ==> ws[a].req.path != ws[b].req.path,
    ensures
        forall|k: int|
            0 <= k < retained_views(ws, evs).len() ==> exists|j: int|
                0 <= j < ws.len() && !resolved(evs[j]) && #[trigger] retained_views(ws, evs)[k]
                    == ws[j],
        forall|a: int, b: int|
            0 <= a < b < retained_views(ws, evs).len() ==> retained_views(ws, evs)[a].req.path
                != retained_views(ws, evs)[b].req.path,
    decreases ws.len(),
{
    if ws.len() == 0 {
    } else {
        let wt = ws.drop_first();
        let et = evs.drop_first();
        assert(forall|a: int, b: int| 0 <= a < b < wt.len() ==> wt[a].req.path != wt[b].req.path)
            by {
            assert(forall|a: int| 0 <= a < wt.len() ==> wt[a] == ws[a + 1]);
        }
        lemma_retained_views_props(wt, et);
        let rv = retained_views(ws, evs);
        let rt = retained_views(wt, et);
        if resolved(evs[0]) {
            assert(rv == rt);
            assert forall|k: int| 0 <= k < rv.len() implies exists|j: int|
                0 <= j < ws.len() && !resolved(evs[j]) && #[trigger] rv[k] == ws[j] by {
                let j = choose|j: int|
                    0 <= j < wt.len() && !resolved(et[j]) && #[trigger] rt[k] == wt[j];
                assert(ws[j + 1] == wt[j]);
                assert(evs[j + 1] == et[j]);
                assert(rv[k] == ws[j + 1]);
            }
        } else {
            assert(rv == seq![ws[0]] + rt);
            assert(rv[0] == ws[0]);
            assert forall|k: int| 0 <= k < rv.len() implies exists|j: int|
                0 <= j < ws.len() && !resolved(evs[j]) && #[trigger] rv[k] == ws[j] by {
                if k == 0 {
                    assert(rv[0] == ws[0]);
                } else {
                    assert(rv[k] == rt[k - 1]);
                    let j = choose|j: int|
                        0 <= j < wt.len() && !resolved(et[j]) && #[trigger] rt[k - 1] == wt[j];
                    assert(ws[j + 1] == wt[j]);
                    assert(evs[j + 1] == et[j]);
                }
            }
            assert forall|a: int, b: int| 0 <= a < b < rv.len() implies rv[a].req.path
                != rv[b].req.path by {
                if a == 0 {
                    assert(rv[b] == rt[b - 1]);
                    let j = choose|j: int|
                        0 <= j < wt.len() && !resolved(et[j]) && #[trigger] rt[b - 1] == wt[j];
                    assert(wt[j] == ws[j + 1]);
                    assert(ws[0].req.path != ws[j + 1].req.path);
                } else {
                    assert(rv[a] == rt[a - 1]);
                    assert(rv[b] == rt[b - 1]);
                }
            }
        }
    }
}

/// Whether `q` is the path of a window among the first `k` whose event was
/// terminal this tick.
pub open spec fn resolved_prefix_path(
    ws: Seq<WinV>,
    evs: Seq<WinEvent>,
    k: int,
    q: Seq<char>,
) -> bool {
    exists|j: int| 0 <= j < k && j < ws.len() && j < evs.len() && resolved(evs[j]) && ws[j].req.path == q
}

/// One scheduler pass over every open window. Each window is visited exactly
/// once, in order. A window whose event is terminal emits its owed response
/// (none for an OS close), has the persisted state written and flushed, is
/// deregistered, and leaves the active set; every other window is kept
/// untouched and stays registered. The returned instructions never order an
/// emission after the matching deregistration, never emit twice for one
/// request, and never touch a request this pass does not resolve.
pub fn update_windows(
    windows: &mut Vec<FileChooserWin>,
    registry: &mut Registry,
    cfg: &mut Config,
    events: &Vec<WinEvent>,
) -> (acts: Vec<Action>)
    requires
        events@.len() == old(windows)@.len(),
        old(registry).wf(),
        forall|i: int|
            0 <= i < old(windows)@.len() ==> old(registry).registered(
                #[trigger] wins_view(old(windows)@)[i].req.path,
            ),
        forall|i: int, j: int|
            0 <= i < j < old(windows)@.len() ==> wins_view(old(windows)@)[i].req.path != wins_view(
                old(windows)@,
            )[j].req.path,
    ensures
        final(registry).wf(),
        wins_view(final(windows)@) == retained_views(wins_view(old(windows)@), events@),
        final(cfg)@ == cfg_after(wins_view(old(windows)@), events@, old(cfg)@),
        save_count(acts@) == resolved_count(events@),
        window_outcomes_ok(wins_view(old(windows)@), events@, acts@, *final(registry)),
        forall|q: Seq<char>| #[trigger] emits_precede_deregs(acts@, q),
        forall|q: Seq<char>|
            !resolved_prefix_path(wins_view(old(windows)@), events@, events@.len() as int, q)
                ==> final(registry).registered(q) == old(registry).registered(q),
        forall|q: Seq<char>|
            !is_window_path(wins_view(old(windows)@), q) ==> emit_count(acts@, q) == 0
                && dereg_count(acts@, q) == 0,
        forall|k: int| 0 <= k < acts@.len() ==> !(#[trigger] acts@[k] is Sleep),
{
    let ghost ws0 = windows@;
    let ghost wv = wins_view(ws0);
    let ghost evs = events@;
    let n = windows.len();
    let mut acts: Vec<Action> = Vec::new();
    let mut retained: Vec<FileChooserWin> = Vec::new();
    let mut i: usize = 0;
    proof {
        assert(wv.skip(0) =~= wv);
        assert(evs.skip(0) =~= evs);
        assert(wins_view(retained@) =~= Seq::<WinV>::empty());
        assert(evs.take(0) =~= Seq::<WinEvent>::empty());
    }
    while i < n
        invariant
            i <= n,
            n == ws0.len(),
            evs.len() == n,
            events@ == evs,
            wv == wins_view(ws0),
            windows@ == ws0.skip(i as int),
            registry.wf(),
            old(registry).wf(),
            forall|j: int| 0 <= j < n ==> old(registry).registered(#[trigger] wv[j].req.path),
            forall|a: int, b: int| 0 <= a < b < n ==> wv[a].req.path != wv[b].req.path,
            wins_view(retained@) + retained_views(wv.skip(i as int), evs.skip(i as int))
                == retained_views(wv, evs),
            cfg_after(wv, evs, old(cfg)@) == cfg_after(
                wv.skip(i as int),
                evs.skip(i as int),
                cfg@,
            ),
            save_count(acts@) == resolved_count(evs.take(i as int)),
            forall|j: int|
                0 <= j < i ==> {
                    let p = wv[j].req.path;
                    &&& responds(#[trigger] evs[j]) ==> emit_count(acts@, p) == 1
                    &&& !responds(evs[j]) ==> emit_count(acts@, p) == 0
                    &&& resolved(evs[j]) ==> dereg_count(acts@, p) == 1 && !registry.registered(p)
                    &&& !resolved(evs[j]) ==> dereg_count(acts@, p) == 0 && registry.registered(p)
                    &&& forall|k: int|
                        0 <= k < acts@.len() && is_emit_for(#[trigger] acts@[k], p) ==> (acts@[k]
                            matches Action::Emit(_, r) && payload_for(evs[j], r))
                },
            forall|q: Seq<char>| #[trigger] emits_precede_deregs(acts@, q),
            forall|q: Seq<char>|
                !resolved_prefix_path(wv, evs, i as int, q) ==> registry.registered(q)
                    == old(registry).registered(q),
            forall|q: Seq<char>|
                !(exists|j: int| 0 <= j < i && #[trigger] wv[j].req.path == q) ==> emit_count(
                    acts@,
                    q,
                ) == 0 && dereg_count(acts@, q) == 0,
            forall|k: int| 0 <= k < acts@.len() ==> !(#[trigger] acts@[k] is Sleep),
        decreases n - i,
    {
        proof {
            assert(wv.skip(i as int).drop_first() =~= wv.skip(i as int + 1));
            assert(evs.skip(i as int).drop_first() =~= evs.skip(i as int + 1));
            assert(wv.skip(i as int)[0] == wv[i as int]);
            assert(evs.skip(i as int)[0] == evs[i as int]);
            assert(ws0.skip(i as int)[0] == ws0[i as int]);
            assert(ws0.skip(i as int).drop_first() =~= ws0.skip(i as int + 1));
            assert(wv[i as int] == ws0[i as int]@);
            assert(evs.take(i as int + 1).drop_last() =~= evs.take(i as int));
            assert(evs.take(i as int + 1).last() == evs[i as int]);
        }
        let w = windows.remove(0);
        let ghost p_i = wv[i as int].req.path;
        proof {
            assert(w@ == wv[i as int]);
            // the current path was not resolved earlier, so its registration
            // stands exactly as at entry
            assert(!resolved_prefix_path(wv, evs, i as int, p_i)) by {
                if resolved_prefix_path(wv, evs, i as int, p_i) {
                    let j = choose|j: int|
                        0 <= j < i && j < wv.len() && j < evs.len() && resolved(evs[j])
                            && wv[j].req.path == p_i;
                    assert(wv[j].req.path != wv[i as int].req.path);
                }
            }
            assert(registry.registered(p_i));
        }
        let ghost acts_entry = acts@;
        proof {
            // the current window's path was never acted on before this visit
            assert(!(exists|j: int| 0 <= j < i && #[trigger] wv[j].req.path == p_i)) by {
                if exists|j: int| 0 <= j < i && #[trigger] wv[j].req.path == p_i {
                    let j = choose|j: int| 0 <= j < i && #[trigger] wv[j].req.path == p_i;
                    assert(wv[j].req.path != wv[i as int].req.path);
                }
            }
            assert(emit_count(acts_entry, p_i) == 0 && dereg_count(acts_entry, p_i) == 0);
        }
        match &events[i] {
            WinEvent::StillOpen => {
                let ghost r0 = retained@;
                retained.push(w);
                proof {
                    assert(wins_view(retained@) =~= wins_view(r0).push(wv[i as int]));
                    lemma_zero_emit(acts@, p_i);
                }
            },
            WinEvent::OsClose => {
                let FileChooserWin { req, state: _, storage } = w;
                let Req { title: _, path } = req;
                resolve_window(path, storage, None, registry, cfg, &mut acts);
                proof {
                    lemma_zero_emit(acts@, p_i);
                }
            },
            WinEvent::PickerCancelled => {
                let FileChooserWin { req, state: _, storage } = w;
                let Req { title: _, path } = req;
                let payload = RePayload::UserCancel.encode();
                proof {
                    assert(payload_for(evs[i as int], payload));
                }
                resolve_window(path, storage, Some(payload), registry, cfg, &mut acts);
            },
            WinEvent::PickerPicked(f) => {
                let FileChooserWin { req, state: _, storage } = w;
                let Req { title: _, path } = req;
                let mut picked: Vec<String> = Vec::new();
                picked.push(f.clone());
                let ghost pickedv = picked@;
                let payload = RePayload::PickedFiles(picked).encode();
                proof {
                    assert(pickedv.map_values(|p: String| file_uri(p@)) =~= seq![file_uri(f@)]);
                    assert(payload_for(evs[i as int], payload));
                }
                resolve_window(path, storage, Some(payload), registry, cfg, &mut acts);
            },
        }
        proof {
            let acts_new = acts@;
            assert forall|j: int|
                0 <= j < i as int + 1 implies {
                let p = wv[j].req.path;
                &&& (responds(#[trigger] evs[j]) ==> emit_count(acts_new, p) == 1)
                &&& (!responds(evs[j]) ==> emit_count(acts_new, p) == 0)
                &&& (resolved(evs[j]) ==> dereg_count(acts_new, p) == 1 && !registry.registered(p))
                &&& (!resolved(evs[j]) ==> dereg_count(acts_new, p) == 0 && registry.registered(p))
                &&& (forall|k: int|
                    0 <= k < acts_new.len() && is_emit_for(#[trigger] acts_new[k], p) ==> (
                    acts_new[k] matches Action::Emit(_, r) && payload_for(evs[j], r)))
            } by {
                let p = wv[j].req.path;
                if j < i as int {
                    assert(p != p_i);
                    assert forall|k: int|
                        0 <= k < acts_new.len() && is_emit_for(#[trigger] acts_new[k], p) implies (
                    acts_new[k] matches Action::Emit(_, r) && payload_for(evs[j], r)) by {
                        if k < acts_entry.len() {
                            assert(acts_new[k] == acts_entry[k]);
                        }
                    }
                } else {
                    assert(p == p_i);
                }
            }
            assert forall|q: Seq<char>| #[trigger] emits_precede_deregs(acts_new, q) by {
                assert(emits_precede_deregs(acts_entry, q));
            }
            assert forall|q: Seq<char>|
                !resolved_prefix_path(wv, evs, i as int + 1, q) implies registry.registered(q)
                == old(registry).registered(q) by {
                if resolved_prefix_path(wv, evs, i as int, q) {
                    assert(resolved_prefix_path(wv, evs, i as int + 1, q));
                }
                if resolved(evs[i as int]) && q == p_i {
                    assert(resolved_prefix_path(wv, evs, i as int + 1, q));
                }
            }
            assert forall|q: Seq<char>|
                !(exists|j: int| 0 <= j < i as int + 1 && #[trigger] wv[j].req.path == q) implies
                emit_count(acts_new, q) == 0 && dereg_count(acts_new, q) == 0 by {
                assert(q != p_i);
                assert(!(exists|j: int| 0 <= j < i && #[trigger] wv[j].req.path == q));
            }
        }
        i += 1;
    }
    proof {
        assert(wv.skip(n as int) =~= Seq::<WinV>::empty());
        assert(evs.skip(n as int) =~= Seq::<WinEvent>::empty());
        assert(evs.take(n as int) =~= evs);
        assert(wins_view(retained@) + retained_views(wv.skip(n as int), evs.skip(n as int))
            =~= wins_view(retained@));
    }
    *windows = retained;
    proof {
        assert forall|q: Seq<char>|
            !is_window_path(wv, q) implies emit_count(acts@, q) == 0 && dereg_count(acts@, q)
            == 0 by {
            if exists|j: int| 0 <= j < n && #[trigger] wv[j].req.path == q {
                let j = choose|j: int| 0 <= j < n && #[trigger] wv[j].req.path == q;
                assert(is_window_path(wv, q));
            }
        }
    }
    acts
}

/// One pass of the main loop. First every open window is visited exactly once
/// and terminal windows are resolved; then the channel is drained without
/// blocking and a window is created, seeded with the now-current persisted
/// state, for each request that arrived. A tick that found nothing active —
/// no window open, nothing queued — ends in a bounded back-off instead of
/// spinning; any activity at all proceeds straight to the next tick.
pub fn tick(
    portal: &mut FilePortal,
    windows: &mut Vec<FileChooserWin>,
    cfg: &mut Config,
    events: &Vec<WinEvent>,
) -> (acts: Vec<Action>)
    requires
        service_wf(*old(portal), old(windows)@),
        events@.len() == old(windows)@.len(),
    ensures
        service_wf(*final(portal), final(windows)@),
        final(portal).queue@.len() == 0,
        final(cfg)@ == cfg_after(wins_view(old(windows)@), events@, old(cfg)@),
        wins_view(final(windows)@) == retained_views(wins_view(old(windows)@), events@)
            + spawned_views(
            old(portal).queue@,
            cfg_after(wins_view(old(windows)@), events@, old(cfg)@),
        ),
        window_outcomes_ok(wins_view(old(windows)@), events@, acts@, final(portal).registry),
        save_count(acts@) == resolved_count(events@),
        forall|q: Seq<char>| #[trigger] emits_precede_deregs(acts@, q),
        forall|q: Seq<char>|
            !is_window_path(wins_view(old(windows)@), q) ==> emit_count(acts@, q) == 0
                && dereg_count(acts@, q) == 0,
        acts@.contains(Action::Sleep) <==> (old(windows)@.len() == 0 && old(
            portal,
        ).queue@.len() == 0),
{
    let ghost ws0 = windows@;
    let ghost wv = wins_view(ws0);
    let ghost evs = events@;
    let ghost q0 = old(portal).queue@;
    let had_windows = windows.len() > 0;
    let mut acts = update_windows(windows, &mut portal.registry, cfg, events);
    let ghost regv = portal.registry;
    let ghost cfgv = cfg@;
    let ghost retained_v = wins_view(windows@);
    let mut spawned = false;
    let ghost mut m: int = 0;
    proof {
        assert(q0.take(0) =~= Seq::<ReqV>::empty());
        assert(retained_v + spawned_views(q0.take(0), cfgv) =~= retained_v);
        assert(q0.skip(0) =~= q0);
    }
    let mut pending = portal.queue.len();
    while pending > 0
        invariant
            0 <= m <= q0.len(),
            pending == portal.queue@.len(),
            portal.queue@ == q0.skip(m),
            portal.registry == regv,
            cfg@ == cfgv,
            wins_view(windows@) == retained_v + spawned_views(q0.take(m), cfgv),
            spawned == (m > 0),
        decreases q0.len() - m,
    {
        match portal.queue.try_recv() {
            Some(req) => {
                proof {
                    assert(req@ == q0.skip(m)[0]);
                    assert(q0.skip(m)[0] == q0[m]);
                    assert(q0.skip(m).drop_first() =~= q0.skip(m + 1));
                }
                spawn_window(req, windows, cfg);
                spawned = true;
                proof {
                    m = m + 1;
                    assert(q0.take(m) =~= q0.take(m - 1).push(q0[m - 1]));
                    assert(spawned_views(q0.take(m), cfgv) =~= spawned_views(
                        q0.take(m - 1),
                        cfgv,
                    ).push(WinV { req: q0[m - 1], state: PickerState::Picking, storage: cfgv }));
                    assert(wins_view(windows@) =~= retained_v + spawned_views(q0.take(m), cfgv));
                }
            },
            None => {
                proof {
                    assert(false);
                }
            },
        }
        pending = portal.queue.len();
    }
    proof {
        assert(q0.skip(m).len() == q0.len() - m);
        assert(m == q0.len());
        assert(q0.take(m) =~= q0);
    }
    if !had_windows && !spawned {
        let ghost a0 = acts@;
        acts.push(Action::Sleep);
        proof {
            assert(acts@ == a0.push(acts@.last()));
            assert(acts@.last() == Action::Sleep);
            lemma_counts_push(a0, acts@.last());
            lemma_precede_push(a0, acts@.last());
            assert(acts@[acts@.len() - 1] == Action::Sleep);
            assert(acts@.contains(Action::Sleep));
            assert(evs.len() == 0);
            assert forall|q: Seq<char>| #[trigger] emits_precede_deregs(acts@, q) by {
                assert(emits_precede_deregs(a0, q));
            }
            assert forall|q: Seq<char>|
                !is_window_path(wv, q) implies emit_count(acts@, q) == 0 && dereg_count(acts@, q)
                == 0 by {
                assert(emit_count(a0, q) == 0 && dereg_count(a0, q) == 0);
            }
        }
    } else {
        proof {
            if acts@.contains(Action::Sleep) {
                let k = choose|k: int| 0 <= k < acts@.len() && acts@[k] == Action::Sleep;
                assert(!(acts@[k] is Sleep));
            }
        }
    }
    proof {
        lemma_retained_views_props(wv, evs);
        let rv = retained_views(wv, evs);
        let sv = spawned_views(q0, cfgv);
        let fv = wins_view(windows@);
        assert(retained_v == rv);
        assert(fv == rv + sv);
        assert forall|i: int|
            0 <= i < fv.len() implies portal.registry.registered(
            #[trigger] fv[i].req.path,
        ) by {
            if i < rv.len() {
                assert(fv[i] == rv[i]);
                let j = choose|j: int|
                    0 <= j < wv.len() && !resolved(evs[j]) && #[trigger] rv[i] == wv[j];
                assert(responds(evs[j]) || !responds(evs[j]));
            } else {
                assert(fv[i] == sv[i - rv.len()]);
                let jq = i - rv.len();
                assert(sv[jq].req == q0[jq]);
                let q = q0[jq].path;
                assert(old(portal).registry.registered(q));
                assert(!resolved_prefix_path(wv, evs, evs.len() as int, q)) by {
                    if resolved_prefix_path(wv, evs, evs.len() as int, q) {
                        let j = choose|j: int|
                            0 <= j < evs.len() && j < wv.len() && j < evs.len() && resolved(evs[j])
                                && wv[j].req.path == q;
                        assert(wv[j].req.path != q0[jq].path);
                    }
                }
            }
        }
        assert forall|a: int, b: int| 0 <= a < b < fv.len() implies fv[a].req.path
            != fv[b].req.path by {
            if b < rv.len() {
            } else if a >= rv.len() {
                assert(fv[a] == sv[a - rv.len()]);
                assert(fv[b] == sv[b - rv.len()]);
                assert(sv[a - rv.len()].req == q0[a - rv.len()]);
                assert(sv[b - rv.len()].req == q0[b - rv.len()]);
            } else {
                assert(fv[a] == rv[a]);
                assert(fv[b] == sv[b - rv.len()]);
                assert(sv[b - rv.len()].req == q0[b - rv.len()]);
                let j = choose|j: int|
                    0 <= j < wv.len() && !resolved(evs[j]) && #[trigger] rv[a] == wv[j];
                assert(wv[j].req.path != q0[b - rv.len()].path);
            }
        }
    }
    acts
}

} // verus!
