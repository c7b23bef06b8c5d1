//! The affinity store: the map of application classes to affinity records
//! and the transient map of live window addresses to window handles.
//!
//! The store is a plain value; the surrounding daemon wraps it in whatever
//! lock its runtime calls for and performs the compositor commands itself.
//! Each operation that the daemon follows with a compositor command is
//! split at that boundary: the store arms the suppression flag and decides,
//! the daemon dispatches, and on a failed command it hands the failure back
//! so the flag is rolled back.

use vstd::prelude::*;

use vstd::hash_map::HashMapWithView;

use crate::codec::{FloatingWindow, Program, ProgramView, Workspace};
use crate::config::{applies, filter_applies, FilterMode};

verus! {

broadcast use vstd::std_specs::hash::axiom_u64_obeys_hash_table_key_model;

/// Why a store operation could not run.
#[derive(Clone, Copy, Debug, PartialEq, Eq, Structural)]
pub enum Error {
    /// The address has no live window handle: a benign race between a
    /// window's close and a late event for it.
    BlankAddress,
    /// The handle's class has no affinity record; every live handle should
    /// have one, so this signals a bookkeeping fault.
    BlankClass,
}

/// The transient handle of one live window.  It ties the window instance
/// back to its class's record and remembers where and when it appeared.
#[derive(Debug)]
pub struct Window {
    pub class: String,
    /// Seconds since the Unix epoch when the window opened.
    pub timestamp: i64,
    /// The workspace that was active when the window opened.
    pub origin: i32,
}

/// Mathematical image of a `Window`.
#[verifier::ext_equal]
pub ghost struct WindowView {
    pub class: Seq<char>,
    pub timestamp: i64,
    pub origin: i32,
}

impl View for Window {
    type V = WindowView;

    open spec fn view(&self) -> WindowView {
        WindowView { class: self.class@, timestamp: self.timestamp, origin: self.origin }
    }
}

/// Settings of the workspace-move feature: filter list, filter mode and
/// history buffer size.
pub type WorkspaceConfig = (Vec<String>, FilterMode, usize);

/// Settings of the floating-restore feature: filter list and filter mode.
pub type FloatingConfig = (Vec<String>, FilterMode);

/// Settings of the return-to-origin feature: filter list, filter mode and
/// dwell timeout in seconds.
pub type RestoreConfig = (Vec<String>, FilterMode, i64);

/// Mathematical image of the whole store.
#[verifier::ext_equal]
pub ghost struct StateView {
    pub addresses: Map<u64, WindowView>,
    pub programs: Map<Seq<char>, ProgramView>,
    pub current_workspace: i32,
    pub changed: bool,
    pub workspace_list: Seq<Seq<char>>,
    pub workspace_mode: FilterMode,
    pub workspace_buffer: usize,
    pub floating_list: Seq<Seq<char>>,
    pub floating_mode: FilterMode,
    pub restore_list: Seq<Seq<char>>,
    pub restore_mode: FilterMode,
    pub restore_timeout: i64,
}

/// The record map a sequence of records stands for; a later record with
/// the same class overrides an earlier one.
pub open spec fn programs_map(s: Seq<Program>) -> Map<Seq<char>, ProgramView>
    decreases s.len(),
{
    if s.len() == 0 {
        Map::empty()
    } else {
        programs_map(s.drop_last()).insert(s.last()@.class, s.last()@)
    }
}

/// No two records share a class.
pub open spec fn unique_classes(s: Seq<Program>) -> bool {
    forall|i: int, j: int| 0 <= i < j < s.len() ==> s[i]@.class != s[j]@.class
}

/// The handle map's image, handle by handle.
pub open spec fn windows_view(m: Map<u64, Window>) -> Map<u64, WindowView> {
    m.map_values(|w: Window| w@)
}

/// A class is in the record map iff some record carries it.
proof fn lemma_programs_map_contains(s: Seq<Program>, c: Seq<char>)
    ensures
        programs_map(s).contains_key(c) <==> exists|i: int| 0 <= i < s.len() && s[i]@.class == c,
    decreases s.len(),
{
    if s.len() > 0 {
        lemma_programs_map_contains(s.drop_last(), c);
        if programs_map(s).contains_key(c) {
            if s.last()@.class == c {
                assert(s[s.len() - 1]@.class == c);
            } else {
                let i = choose|i: int| 0 <= i < s.drop_last().len() && s.drop_last()[i]@.class == c;
                assert(s[i]@.class == c);
            }
        }
        if exists|i: int| 0 <= i < s.len() && s[i]@.class == c {
            let i = choose|i: int| 0 <= i < s.len() && s[i]@.class == c;
            if i < s.len() - 1 {
                assert(s.drop_last()[i]@.class == c);
            }
        }
    }
}

/// With unique classes, the record map reads each record back at its
/// class.
proof fn lemma_programs_map_get(s: Seq<Program>, i: int)
    requires
        unique_classes(s),
        0 <= i < s.len(),
    ensures
        programs_map(s).contains_key(s[i]@.class),
        programs_map(s)[s[i]@.class] == s[i]@,
    decreases s.len(),
{
    if i == s.len() - 1 {
    } else {
        assert(unique_classes(s.drop_last()));
        assert(s.drop_last()[i]@.class == s[i]@.class);
        lemma_programs_map_get(s.drop_last(), i);
        assert(s.last()@.class != s[i]@.class);
    }
}

/// With unique classes, replacing the record at one index is an insert on
/// the record map.
proof fn lemma_programs_map_update(s: Seq<Program>, i: int, p: Program)
    requires
        unique_classes(s),
        0 <= i < s.len(),
        p@.class == s[i]@.class,
    ensures
        programs_map(s.update(i, p)) == programs_map(s).insert(p@.class, p@),
        unique_classes(s.update(i, p)),
    decreases s.len(),
{
    let t = s.update(i, p);
    assert(unique_classes(t)) by {
        assert forall|a: int, b: int| 0 <= a < b < t.len() implies t[a]@.class != t[b]@.class by {
            assert(s[a]@.class != s[b]@.class);
        }
    }
    if i == s.len() - 1 {
        assert(t.drop_last() =~= s.drop_last());
        assert(t.last() == p);
        assert(programs_map(s.drop_last()).insert(s.last()@.class, s.last()@).insert(p@.class, p@)
            =~= programs_map(s.drop_last()).insert(p@.class, p@));
    } else {
        assert(t.drop_last() =~= s.drop_last().update(i, p));
        assert(t.last() == s.last());
        assert(unique_classes(s.drop_last()));
        assert(s.drop_last()[i]@.class == s[i]@.class);
        lemma_programs_map_update(s.drop_last(), i, p);
        assert(s.last()@.class != p@.class);
        assert(programs_map(s.drop_last()).insert(p@.class, p@).insert(s.last()@.class, s.last()@)
            =~= programs_map(s.drop_last()).insert(s.last()@.class, s.last()@).insert(
            p@.class,
            p@,
        ));
    }
}

/// Inserting a handle maps through to the handle map's image.
proof fn lemma_windows_view_insert(m: Map<u64, Window>, k: u64, v: Window)
    ensures
        windows_view(m.insert(k, v)) == windows_view(m).insert(k, v@),
{
    assert(windows_view(m.insert(k, v)) =~= windows_view(m).insert(k, v@));
}

/// Removing a handle maps through to the handle map's image.
proof fn lemma_windows_view_remove(m: Map<u64, Window>, k: u64)
    ensures
        windows_view(m.remove(k)) == windows_view(m).remove(k),
{
    assert(windows_view(m.remove(k)) =~= windows_view(m).remove(k));
}

/// Keeps the newest `b` placements, evicting from the front (oldest
/// first).
pub open spec fn trim_front(s: Seq<Workspace>, b: int) -> Seq<Workspace> {
    if s.len() <= b {
        s
    } else {
        s.skip(s.len() - b)
    }
}

/// The store.  All persistent state of the daemon lives here.
pub struct State {
    addresses: HashMapWithView<u64, Window>,
    programs: Vec<Program>,
    current_workspace: i32,
    changed: bool,
    workspace_list: Vec<String>,
    workspace_mode: FilterMode,
    workspace_buffer: usize,
    floating_list: Vec<String>,
    floating_mode: FilterMode,
    restore_list: Vec<String>,
    restore_mode: FilterMode,
    restore_timeout: i64,
}

impl View for State {
    type V = StateView;

    closed spec fn view(&self) -> StateView {
        StateView {
            addresses: windows_view(self.addresses@),
            programs: programs_map(self.programs@),
            current_workspace: self.current_workspace,
            changed: self.changed,
            workspace_list: self.workspace_list.deep_view(),
            workspace_mode: self.workspace_mode,
            workspace_buffer: self.workspace_buffer,
            floating_list: self.floating_list.deep_view(),
            floating_mode: self.floating_mode,
            restore_list: self.restore_list.deep_view(),
            restore_mode: self.restore_mode,
            restore_timeout: self.restore_timeout,
        }
    }
}

impl StateView {
    /// `registerWindow`: creates the class's record at the current
    /// workspace if none exists yet (which marks the store changed), and
    /// always inserts or overwrites the transient handle for the address.
    pub open spec fn add_window_spec(self, class: Seq<char>, address: u64, now: i64) -> StateView {
        let with_rec = if self.programs.contains_key(class) {
            self
        } else {
            StateView {
                programs: self.programs.insert(
                    class,
                    ProgramView {
                        class,
                        workspaces: seq![
                            Workspace { workspace_id: self.current_workspace, timestamp: now },
                        ],
                        floating_window: None,
                        moved: false,
                        float_moved: false,
                    },
                ),
                changed: true,
                ..self
            }
        };
        StateView {
            addresses: self.addresses.insert(
                address,
                WindowView { class, timestamp: now, origin: self.current_workspace },
            ),
            ..with_rec
        }
    }

    /// `unregisterWindow`: removes and returns the handle, touching
    /// nothing else.
    pub open spec fn remove_window_spec(self, address: u64) -> (StateView, Option<WindowView>) {
        if self.addresses.contains_key(address) {
            (
                StateView { addresses: self.addresses.remove(address), ..self },
                Some(self.addresses[address]),
            )
        } else {
            (self, None)
        }
    }

    /// `recordExternalMove`: a set suppression flag is consumed and the
    /// event dropped (it echoes the daemon's own move); otherwise the
    /// placement is appended, the history trimmed to the buffer from the
    /// front, and the store marked changed.
    pub open spec fn window_moved_spec(self, address: u64, workspace_id: i32, now: i64) -> (
        StateView,
        Result<(), Error>,
    ) {
        if !self.addresses.contains_key(address) {
            (self, Err(Error::BlankAddress))
        } else {
            let class = self.addresses[address].class;
            if !self.programs.contains_key(class) {
                (self, Err(Error::BlankClass))
            } else {
                let p = self.programs[class];
                if p.moved {
                    (
                        StateView {
                            programs: self.programs.insert(class, ProgramView { moved: false, ..p }),
                            ..self
                        },
                        Ok(()),
                    )
                } else {
                    let ws = trim_front(
                        p.workspaces.push(Workspace { workspace_id, timestamp: now }),
                        self.workspace_buffer as int,
                    );
                    (
                        StateView {
                            programs: self.programs.insert(
                                class,
                                ProgramView { workspaces: ws, ..p },
                            ),
                            changed: true,
                            ..self
                        },
                        Ok(()),
                    )
                }
            }
        }
    }

    /// `requestMove`, up to the compositor boundary: a class outside the
    /// workspace filter is skipped with `false`; otherwise the suppression
    /// flag is armed before the caller issues the move command, and `true`
    /// says the command is owed.
    pub open spec fn move_window_spec(self, address: u64) -> (StateView, Result<bool, Error>) {
        if !self.addresses.contains_key(address) {
            (self, Err(Error::BlankAddress))
        } else {
            let class = self.addresses[address].class;
            if !filter_applies(class, self.workspace_list, self.workspace_mode) {
                (self, Ok(false))
            } else if !self.programs.contains_key(class) {
                (self, Err(Error::BlankClass))
            } else {
                let p = self.programs[class];
                (
                    StateView {
                        programs: self.programs.insert(class, ProgramView { moved: true, ..p }),
                        ..self
                    },
                    Ok(true),
                )
            }
        }
    }

    /// Rollback after a failed move command: the armed suppression flag is
    /// cleared again, since no echo event will come.
    pub open spec fn move_window_failed_spec(self, address: u64) -> (StateView, Result<(), Error>) {
        if !self.addresses.contains_key(address) {
            (self, Err(Error::BlankAddress))
        } else {
            let class = self.addresses[address].class;
            if !self.programs.contains_key(class) {
                (self, Err(Error::BlankClass))
            } else {
                let p = self.programs[class];
                (
                    StateView {
                        programs: self.programs.insert(class, ProgramView { moved: false, ..p }),
                        ..self
                    },
                    Ok(()),
                )
            }
        }
    }

    /// `requestFloatMove`, up to the compositor boundary: like
    /// `move_window_spec`, with the floating filter and the floating
    /// suppression flag.
    pub open spec fn move_float_window_spec(self, address: u64) -> (StateView, Result<bool, Error>) {
        if !self.addresses.contains_key(address) {
            (self, Err(Error::BlankAddress))
        } else {
            let class = self.addresses[address].class;
            if !filter_applies(class, self.floating_list, self.floating_mode) {
                (self, Ok(false))
            } else if !self.programs.contains_key(class) {
                (self, Err(Error::BlankClass))
            } else {
                let p = self.programs[class];
                (
                    StateView {
                        programs: self.programs.insert(class, ProgramView { float_moved: true, ..p }),
                        ..self
                    },
                    Ok(true),
                )
            }
        }
    }

    /// Rollback after a failed floating command sequence.
    pub open spec fn move_float_window_failed_spec(self, address: u64) -> (
        StateView,
        Result<(), Error>,
    ) {
        if !self.addresses.contains_key(address) {
            (self, Err(Error::BlankAddress))
        } else {
            let class = self.addresses[address].class;
            if !self.programs.contains_key(class) {
                (self, Err(Error::BlankClass))
            } else {
                let p = self.programs[class];
                (
                    StateView {
                        programs: self.programs.insert(
                            class,
                            ProgramView { float_moved: false, ..p },
                        ),
                        ..self
                    },
                    Ok(()),
                )
            }
        }
    }

    /// `setFloatingGeometry`: stores the geometry and marks the store
    /// changed only when position or size differs from what is stored (or
    /// none is stored); an identical geometry is a complete no-op, which
    /// keeps the polling loop from writing every cycle.
    pub open spec fn add_floating_window_spec(self, class: Seq<char>, w: FloatingWindow) -> (
        StateView,
        Result<(), Error>,
    ) {
        if !self.programs.contains_key(class) {
            (self, Err(Error::BlankClass))
        } else {
            let p = self.programs[class];
            let change = match p.floating_window {
                Some(last) => last.at != w.at || last.size != w.size,
                None => true,
            };
            if change {
                (
                    StateView {
                        programs: self.programs.insert(
                            class,
                            ProgramView { floating_window: Some(w), ..p },
                        ),
                        changed: true,
                        ..self
                    },
                    Ok(()),
                )
            } else {
                (self, Ok(()))
            }
        }
    }

    /// `clearFloatingGeometry`: drops the stored geometry and marks the
    /// store changed.
    pub open spec fn remove_floating_window_spec(self, class: Seq<char>) -> (
        StateView,
        Result<(), Error>,
    ) {
        if !self.programs.contains_key(class) {
            (self, Err(Error::BlankClass))
        } else {
            let p = self.programs[class];
            (
                StateView {
                    programs: self.programs.insert(
                        class,
                        ProgramView { floating_window: None, ..p },
                    ),
                    changed: true,
                    ..self
                },
                Ok(()),
            )
        }
    }

    /// One step of the floating poll for one live client: a floating
    /// client's geometry is stored (change-detected), and a client that
    /// toggled back to tiled has its stored geometry cleared; a tiled
    /// client with nothing stored is left alone.
    pub open spec fn sync_floating_window_spec(
        self,
        class: Seq<char>,
        floating: bool,
        w: FloatingWindow,
    ) -> (StateView, Result<(), Error>) {
        if !self.programs.contains_key(class) {
            (self, Err(Error::BlankClass))
        } else if floating {
            self.add_floating_window_spec(class, w)
        } else if self.programs[class].floating_window is Some {
            self.remove_floating_window_spec(class)
        } else {
            (self, Ok(()))
        }
    }

    /// The close flow: the handle is removed, and if the restore advisor
    /// approves, the origin workspace to switch back to is returned.
    pub open spec fn window_closed_spec(self, address: u64, now: i64) -> (StateView, Option<i32>) {
        let (s1, h) = self.remove_window_spec(address);
        match h {
            None => (s1, None),
            Some(w) => if crate::restore::spec_should_return_to_origin(
                w,
                now,
                self.restore_timeout,
                self.restore_list,
                self.restore_mode,
            ) {
                (s1, Some(w.origin))
            } else {
                (s1, None)
            },
        }
    }
}

/// Relies on `chrono::Utc::now` and `DateTime::timestamp`: the current
/// time as whole seconds since the Unix epoch.  Nothing is assumed about
/// the value; every caller hands it on to an operation specified for all
/// times.
#[verifier::external_body]
fn now_seconds() -> i64 {
    chrono::Utc::now().timestamp()
}

impl State {
    /// Classes of distinct records never collide; every operation keeps
    /// this.
    pub closed spec fn wf(&self) -> bool {
        unique_classes(self.programs@)
    }

    /// A fresh store: no records, no handles, workspace one current,
    /// nothing to persist.
    pub fn new(
        workspace_config: WorkspaceConfig,
        floating_config: FloatingConfig,
        restore_config: RestoreConfig,
    ) -> (r: State)
        ensures
            r.wf(),
            r@ == (StateView {
                addresses: Map::<u64, WindowView>::empty(),
                programs: Map::<Seq<char>, ProgramView>::empty(),
                current_workspace: 1,
                changed: false,
                workspace_list: workspace_config.0.deep_view(),
                workspace_mode: workspace_config.1,
                workspace_buffer: workspace_config.2,
                floating_list: floating_config.0.deep_view(),
                floating_mode: floating_config.1,
                restore_list: restore_config.0.deep_view(),
                restore_mode: restore_config.1,
                restore_timeout: restore_config.2,
            }),
    {
        let r = State {
            addresses: HashMapWithView::new(),
            programs: Vec::new(),
            current_workspace: 1,
            changed: false,
            workspace_list: workspace_config.0,
            workspace_mode: workspace_config.1,
            workspace_buffer: workspace_config.2,
            floating_list: floating_config.0,
            floating_mode: floating_config.1,
            restore_list: restore_config.0,
            restore_mode: restore_config.1,
            restore_timeout: restore_config.2,
        };
        proof {
            assert(windows_view(r.addresses@) =~= Map::<u64, WindowView>::empty());
        }
        r
    }

    /// Index of the record of `class`, if one exists.
    fn find_program(&self, class: &String) -> (r: Option<usize>)
        ensures
            match r {
                Some(i) => i < self.programs@.len() && self.programs@[i as int]@.class == class@,
                None => forall|i: int|
                    0 <= i < self.programs@.len() ==> (#[trigger] self.programs@[i])@.class
                        != class@,
            },
    {
        let mut i: usize = 0;
        while i < self.programs.len()
            invariant
                0 <= i <= self.programs@.len(),
                forall|j: int| 0 <= j < i ==> (#[trigger] self.programs@[j])@.class != class@,
            decreases self.programs@.len() - i,
        {
            if self.programs[i].class == *class {
                return Some(i);
            }
            i = i + 1;
        }
        None
    }

    /// Inserts `p`, replacing any record of the same class.
    fn upsert(&mut self, p: Program)
        requires
            old(self).wf(),
        ensures
            final(self).wf(),
            final(self)@ == (StateView {
                programs: old(self)@.programs.insert(p@.class, p@),
                ..old(self)@
            }),
    {
        let ghost s0 = self.programs@;
        let class = p.class.clone();
        match self.find_program(&class) {
            Some(i) => {
                let _ = self.programs.remove(i);
                self.programs.insert(i, p);
                proof {
                    assert(self.programs@ =~= s0.update(i as int, p));
                    lemma_programs_map_update(s0, i as int, p);
                    assert(self@ =~= (StateView {
                        programs: old(self)@.programs.insert(p@.class, p@),
                        ..old(self)@
                    }));
                }
            },
            None => {
                self.programs.push(p);
                proof {
                    assert(self.programs@.drop_last() =~= s0);
                    assert(self.programs@.last() == p);
                    assert(unique_classes(self.programs@)) by {
                        assert forall|a: int, b: int|
                            0 <= a < b < self.programs@.len() implies self.programs@[a]@.class
                            != self.programs@[b]@.class by {
                            if b == self.programs@.len() - 1 {
                                assert(self.programs@[a] == s0[a]);
                            } else {
                                assert(self.programs@[a] == s0[a] && self.programs@[b] == s0[b]);
                            }
                        }
                    }
                    assert(self@ =~= (StateView {
                        programs: old(self)@.programs.insert(p@.class, p@),
                        ..old(self)@
                    }));
                }
            },
        }
    }

    /// Builds a store from persisted records; a later record of a class
    /// already seen replaces the earlier one.
    pub fn load(
        programs: Vec<Program>,
        workspace_config: WorkspaceConfig,
        floating_config: FloatingConfig,
        restore_config: RestoreConfig,
    ) -> (r: State)
        ensures
            r.wf(),
            r@ == (StateView {
                addresses: Map::<u64, WindowView>::empty(),
                programs: programs_map(programs@),
                current_workspace: 1,
                changed: false,
                workspace_list: workspace_config.0.deep_view(),
                workspace_mode: workspace_config.1,
                workspace_buffer: workspace_config.2,
                floating_list: floating_config.0.deep_view(),
                floating_mode: floating_config.1,
                restore_list: restore_config.0.deep_view(),
                restore_mode: restore_config.1,
                restore_timeout: restore_config.2,
            }),
    {
        let ghost input = programs@;
        let mut st = State::new(workspace_config, floating_config, restore_config);
        let ghost base = st@;
        let mut rest = programs;
        let mut i: usize = 0;
        let n = rest.len();
        while i < n
            invariant
                0 <= i <= n,
                n == input.len(),
                rest@ == input.skip(i as int),
                st.wf(),
                st@ == (StateView { programs: programs_map(input.take(i as int)), ..base }),
            decreases n - i,
        {
            let p = rest.remove(0);
            proof {
                assert(p == input[i as int]);
                assert(rest@ =~= input.skip(i + 1));
                assert(input.take(i + 1).drop_last() =~= input.take(i as int));
                assert(input.take(i + 1).last() == input[i as int]);
            }
            st.upsert(p);
            i = i + 1;
        }
        proof {
            assert(input.take(n as int) =~= input);
        }
        st
    }

    /// `registerWindow` at an explicit time: see `StateView::add_window_spec`.
    pub fn add_window_at(&mut self, class: String, address: u64, now: i64)
        requires
            old(self).wf(),
        ensures
            final(self).wf(),
            final(self)@ == old(self)@.add_window_spec(class@, address, now),
    {
        let ghost s0 = self.programs@;
        let origin = self.current_workspace;
        let none_found = self.find_program(&class).is_none();
        if none_found {
            let mut ws: Vec<Workspace> = Vec::new();
            ws.push(Workspace { workspace_id: origin, timestamp: now });
            let p = Program {
                class: class.clone(),
                workspaces: ws,
                floating_window: None,
                moved: false,
                float_moved: false,
            };
            proof {
                lemma_programs_map_contains(s0, class@);
                assert(ws@ =~= seq![Workspace { workspace_id: origin, timestamp: now }]);
            }
            self.programs.push(p);
            self.changed = true;
            proof {
                assert(self.programs@.drop_last() =~= s0);
                assert(unique_classes(self.programs@)) by {
                    assert forall|a: int, b: int|
                        0 <= a < b < self.programs@.len() implies self.programs@[a]@.class
                        != self.programs@[b]@.class by {
                        if b == self.programs@.len() - 1 {
                            assert(self.programs@[a] == s0[a]);
                        } else {
                            assert(self.programs@[a] == s0[a] && self.programs@[b] == s0[b]);
                        }
                    }
                }
            }
        } else {
            proof {
                lemma_programs_map_contains(s0, class@);
            }
        }
        let ghost m0 = self.addresses@;
        let w = Window { class, timestamp: now, origin };
        self.addresses.insert(address, w);
        proof {
            lemma_windows_view_insert(m0, address, w);
            assert(self@ =~= old(self)@.add_window_spec(w@.class, address, now));
        }
    }

    /// `registerWindow` at the present moment, as the event handlers call
    /// it; the clock is read once and handed to `add_window_at`.
    pub fn add_window(&mut self, class: String, address: u64)
        requires
            old(self).wf(),
        ensures
            final(self).wf(),
            exists|now: i64| final(self)@ == old(self)@.add_window_spec(class@, address, now),
    {
        let now = now_seconds();
        let ghost c = class@;
        self.add_window_at(class, address, now);
        proof {
            assert(self@ == old(self)@.add_window_spec(c, address, now));
        }
    }

    /// The workspace currently in view, updated by workspace-change
    /// events.
    pub fn current_workspace(&self) -> (r: i32)
        ensures
            r == self@.current_workspace,
    {
        self.current_workspace
    }

    /// Records a workspace-change event.
    pub fn workspace_changed(&mut self, id: i32)
        requires
            old(self).wf(),
        ensures
            final(self).wf(),
            final(self)@ == (StateView { current_workspace: id, ..old(self)@ }),
    {
        self.current_workspace = id;
        proof {
            assert(self@ =~= (StateView { current_workspace: id, ..old(self)@ }));
        }
    }

    /// True while the store holds changes the persistence flush has not
    /// written yet.
    pub fn is_changed(&self) -> (r: bool)
        ensures
            r == self@.changed,
    {
        self.changed
    }

    /// Clears the changed flag; called only after a successful flush.
    pub fn mark_saved(&mut self)
        requires
            old(self).wf(),
        ensures
            final(self).wf(),
            final(self)@ == (StateView { changed: false, ..old(self)@ }),
    {
        self.changed = false;
        proof {
            assert(self@ =~= (StateView { changed: false, ..old(self)@ }));
        }
    }

    /// The class of the live window at `address`, if the address is
    /// mapped.
    fn lookup_class(&self, address: u64) -> (r: Option<String>)
        ensures
            match r {
                Some(c) => self@.addresses.contains_key(address) && c@
                    == self@.addresses[address].class,
                None => !self@.addresses.contains_key(address),
            },
    {
        match self.addresses.get(&address) {
            Some(w) => Some(w.class.clone()),
            None => None,
        }
    }

    /// Replaces the record at index `i` with `p`, which must keep the
    /// class.
    fn replace_at(&mut self, i: usize, p: Program)
        requires
            old(self).wf(),
            i < old(self).programs@.len(),
            p@.class == old(self).programs@[i as int]@.class,
        ensures
            final(self).wf(),
            final(self)@ == (StateView {
                programs: old(self)@.programs.insert(p@.class, p@),
                ..old(self)@
            }),
    {
        let ghost s0 = self.programs@;
        let _ = self.programs.remove(i);
        self.programs.insert(i, p);
        proof {
            assert(self.programs@ =~= s0.update(i as int, p));
            lemma_programs_map_update(s0, i as int, p);
            assert(self@ =~= (StateView {
                programs: old(self)@.programs.insert(p@.class, p@),
                ..old(self)@
            }));
        }
    }

    /// `unregisterWindow`: removes and returns the handle of `address`,
    /// if one is live; affinity records are never removed here.
    pub fn remove_window(&mut self, address: u64) -> (r: Option<Window>)
        requires
            old(self).wf(),
        ensures
            final(self).wf(),
            final(self)@ == old(self)@.remove_window_spec(address).0,
            (match r {
                Some(w) => Some(w@),
                None => None::<WindowView>,
            }) == old(self)@.remove_window_spec(address).1,
    {
        let ghost m0 = self.addresses@;
        let r = self.addresses.remove(&address);
        proof {
            match r {
                Some(_) => {
                    lemma_windows_view_remove(m0, address);
                    assert(final(self)@ =~= old(self)@.remove_window_spec(address).0);
                },
                None => {
                    assert(final(self)@ =~= old(self)@.remove_window_spec(address).0);
                },
            }
        }
        r
    }

    /// `recordExternalMove` at an explicit time: see
    /// `StateView::window_moved_spec`.
    pub fn window_moved_at(&mut self, address: u64, workspace_id: i32, now: i64) -> (r: Result<
        (),
        Error,
    >)
        requires
            old(self).wf(),
        ensures
            final(self).wf(),
            final(self)@ == old(self)@.window_moved_spec(address, workspace_id, now).0,
            r == old(self)@.window_moved_spec(address, workspace_id, now).1,
    {
        let class = match self.lookup_class(address) {
            Some(c) => c,
            None => {
                return Err(Error::BlankAddress);
            },
        };
        let idx = match self.find_program(&class) {
            Some(i) => i,
            None => {
                proof {
                    lemma_programs_map_contains(self.programs@, class@);
                }
                return Err(Error::BlankClass);
            },
        };
        proof {
            lemma_programs_map_contains(self.programs@, class@);
            lemma_programs_map_get(self.programs@, idx as int);
        }
        let mut p = self.programs[idx].clone();
        if p.moved {
            p.moved = false;
            self.replace_at(idx, p);
            proof {
                assert(final(self)@ =~= old(self)@.window_moved_spec(address, workspace_id, now).0);
            }
            return Ok(());
        }
        let buffer = self.workspace_buffer;
        let ghost orig = self.programs@[idx as int]@;
        p.workspaces.push(Workspace { workspace_id, timestamp: now });
        let ghost pushed = p.workspaces@;
        while p.workspaces.len() > buffer
            invariant
                trim_front(p.workspaces@, buffer as int) == trim_front(pushed, buffer as int),
                p@.class == orig.class,
                p@.moved == orig.moved,
                p@.float_moved == orig.float_moved,
                p@.floating_window == orig.floating_window,
            decreases p.workspaces@.len(),
        {
            let ghost s = p.workspaces@;
            let _ = p.workspaces.remove(0);
            proof {
                assert(p.workspaces@ =~= s.skip(1));
                if s.len() - 1 > buffer {
                    assert(s.skip(1).skip(s.len() - 1 - buffer) =~= s.skip(s.len() - buffer));
                } else {
                    assert(s.skip(s.len() - buffer) =~= s.skip(1));
                }
            }
        }
        self.replace_at(idx, p);
        self.changed = true;
        proof {
            assert(final(self)@ =~= old(self)@.window_moved_spec(address, workspace_id, now).0);
        }
        Ok(())
    }

    /// `recordExternalMove` at the present moment, as the event handlers
    /// call it.
    pub fn window_moved(&mut self, address: u64, workspace_id: i32) -> (r: Result<(), Error>)
        requires
            old(self).wf(),
        ensures
            final(self).wf(),
            exists|now: i64|
                final(self)@ == old(self)@.window_moved_spec(address, workspace_id, now).0 && r
                    == old(self)@.window_moved_spec(address, workspace_id, now).1,
    {
        let now = now_seconds();
        let r = self.window_moved_at(address, workspace_id, now);
        proof {
            assert(final(self)@ == old(self)@.window_moved_spec(address, workspace_id, now).0 && r
                == old(self)@.window_moved_spec(address, workspace_id, now).1);
        }
        r
    }

    /// `requestMove`, up to the compositor boundary.  `Ok(true)` arms the
    /// suppression flag and obliges the caller to issue the move command
    /// now — and to call `move_window_failed` if that command fails.
    /// `Ok(false)` means the class sits outside the workspace filter and
    /// nothing was done.
    pub fn move_window(&mut self, address: u64) -> (r: Result<bool, Error>)
        requires
            old(self).wf(),
        ensures
            final(self).wf(),
            final(self)@ == old(self)@.move_window_spec(address).0,
            r == old(self)@.move_window_spec(address).1,
    {
        let class = match self.lookup_class(address) {
            Some(c) => c,
            None => {
                return Err(Error::BlankAddress);
            },
        };
        if !applies(&class, &self.workspace_list, self.workspace_mode) {
            return Ok(false);
        }
        let idx = match self.find_program(&class) {
            Some(i) => i,
            None => {
                proof {
                    lemma_programs_map_contains(self.programs@, class@);
                }
                return Err(Error::BlankClass);
            },
        };
        proof {
            lemma_programs_map_contains(self.programs@, class@);
            lemma_programs_map_get(self.programs@, idx as int);
        }
        let mut p = self.programs[idx].clone();
        p.moved = true;
        self.replace_at(idx, p);
        proof {
            assert(final(self)@ =~= old(self)@.move_window_spec(address).0);
        }
        Ok(true)
    }

    /// Rolls the workspace suppression flag back after a failed move
    /// command.
    pub fn move_window_failed(&mut self, address: u64) -> (r: Result<(), Error>)
        requires
            old(self).wf(),
        ensures
            final(self).wf(),
            final(self)@ == old(self)@.move_window_failed_spec(address).0,
            r == old(self)@.move_window_failed_spec(address).1,
    {
        let class = match self.lookup_class(address) {
            Some(c) => c,
            None => {
                return Err(Error::BlankAddress);
            },
        };
        let idx = match self.find_program(&class) {
            Some(i) => i,
            None => {
                proof {
                    lemma_programs_map_contains(self.programs@, class@);
                }
                return Err(Error::BlankClass);
            },
        };
        proof {
            lemma_programs_map_contains(self.programs@, class@);
            lemma_programs_map_get(self.programs@, idx as int);
        }
        let mut p = self.programs[idx].clone();
        p.moved = false;
        self.replace_at(idx, p);
        proof {
            assert(final(self)@ =~= old(self)@.move_window_failed_spec(address).0);
        }
        Ok(())
    }

    /// `requestFloatMove`, up to the compositor boundary.  `Ok(true)` arms
    /// the floating suppression flag and obliges the caller to issue the
    /// toggle-float, move and resize commands in order, stopping at the
    /// first failure and then calling `move_float_window_failed`.
    pub fn move_float_window(&mut self, address: u64) -> (r: Result<bool, Error>)
        requires
            old(self).wf(),
        ensures
            final(self).wf(),
            final(self)@ == old(self)@.move_float_window_spec(address).0,
            r == old(self)@.move_float_window_spec(address).1,
    {
        let class = match self.lookup_class(address) {
            Some(c) => c,
            None => {
                return Err(Error::BlankAddress);
            },
        };
        if !applies(&class, &self.floating_list, self.floating_mode) {
            return Ok(false);
        }
        let idx = match self.find_program(&class) {
            Some(i) => i,
            None => {
                proof {
                    lemma_programs_map_contains(self.programs@, class@);
                }
                return Err(Error::BlankClass);
            },
        };
        proof {
            lemma_programs_map_contains(self.programs@, class@);
            lemma_programs_map_get(self.programs@, idx as int);
        }
        let mut p = self.programs[idx].clone();
        p.float_moved = true;
        self.replace_at(idx, p);
        proof {
            assert(final(self)@ =~= old(self)@.move_float_window_spec(address).0);
        }
        Ok(true)
    }

    /// Rolls the floating suppression flag back after a failed command in
    /// the floating sequence.
    pub fn move_float_window_failed(&mut self, address: u64) -> (r: Result<(), Error>)
        requires
            old(self).wf(),
        ensures
            final(self).wf(),
            final(self)@ == old(self)@.move_float_window_failed_spec(address).0,
            r == old(self)@.move_float_window_failed_spec(address).1,
    {
        let class = match self.lookup_class(address) {
            Some(c) => c,
            None => {
                return Err(Error::BlankAddress);
            },
        };
        let idx = match self.find_program(&class) {
            Some(i) => i,
            None => {
                proof {
                    lemma_programs_map_contains(self.programs@, class@);
                }
                return Err(Error::BlankClass);
            },
        };
        proof {
            lemma_programs_map_contains(self.programs@, class@);
            lemma_programs_map_get(self.programs@, idx as int);
        }
        let mut p = self.programs[idx].clone();
        p.float_moved = false;
        self.replace_at(idx, p);
        proof {
            assert(final(self)@ =~= old(self)@.move_float_window_failed_spec(address).0);
        }
        Ok(())
    }

    /// `setFloatingGeometry`: stores the geometry of a floating window;
    /// a geometry identical to the stored one is a complete no-op, so the
    /// polling loop cannot cause spurious writes.
    pub fn add_floating_window(&mut self, class: &str, window: FloatingWindow) -> (r: Result<
        (),
        Error,
    >)
        requires
            old(self).wf(),
        ensures
            final(self).wf(),
            final(self)@ == old(self)@.add_floating_window_spec(class@, window).0,
            r == old(self)@.add_floating_window_spec(class@, window).1,
    {
        let cls: String = class.to_owned();
        let idx = match self.find_program(&cls) {
            Some(i) => i,
            None => {
                proof {
                    lemma_programs_map_contains(self.programs@, class@);
                }
                return Err(Error::BlankClass);
            },
        };
        proof {
            lemma_programs_map_contains(self.programs@, class@);
            lemma_programs_map_get(self.programs@, idx as int);
        }
        let change = match &self.programs[idx].floating_window {
            Some(last) => last.at.0 != window.at.0 || last.at.1 != window.at.1 || last.size.0
                != window.size.0 || last.size.1 != window.size.1,
            None => true,
        };
        if change {
            let mut p = self.programs[idx].clone();
            p.floating_window = Some(window);
            self.replace_at(idx, p);
            self.changed = true;
            proof {
                assert(final(self)@ =~= old(self)@.add_floating_window_spec(class@, window).0);
            }
        }
        Ok(())
    }

    /// `clearFloatingGeometry`: forgets the stored geometry of `class`
    /// and marks the store changed.
    pub fn remove_floating_window(&mut self, class: &str) -> (r: Result<(), Error>)
        requires
            old(self).wf(),
        ensures
            final(self).wf(),
            final(self)@ == old(self)@.remove_floating_window_spec(class@).0,
            r == old(self)@.remove_floating_window_spec(class@).1,
    {
        let cls: String = class.to_owned();
        let idx = match self.find_program(&cls) {
            Some(i) => i,
            None => {
                proof {
                    lemma_programs_map_contains(self.programs@, class@);
                }
                return Err(Error::BlankClass);
            },
        };
        proof {
            lemma_programs_map_contains(self.programs@, class@);
            lemma_programs_map_get(self.programs@, idx as int);
        }
        let mut p = self.programs[idx].clone();
        p.floating_window = None;
        self.replace_at(idx, p);
        self.changed = true;
        proof {
            assert(final(self)@ =~= old(self)@.remove_floating_window_spec(class@).0);
        }
        Ok(())
    }

    /// One step of the floating poll: records what the compositor reports
    /// about one live client of `class`.  While the client floats its
    /// geometry is stored through the change-detection gate; once it
    /// returns to tiling any stored geometry is cleared.
    pub fn sync_floating_window(&mut self, class: &str, floating: bool, window: FloatingWindow) -> (r:
        Result<(), Error>)
        requires
            old(self).wf(),
        ensures
            final(self).wf(),
            final(self)@ == old(self)@.sync_floating_window_spec(class@, floating, window).0,
            r == old(self)@.sync_floating_window_spec(class@, floating, window).1,
    {
        if floating {
            self.add_floating_window(class, window)
        } else {
            let cls: String = class.to_owned();
            let idx = match self.find_program(&cls) {
                Some(i) => i,
                None => {
                    proof {
                        lemma_programs_map_contains(self.programs@, class@);
                    }
                    return Err(Error::BlankClass);
                },
            };
            proof {
                lemma_programs_map_contains(self.programs@, class@);
                lemma_programs_map_get(self.programs@, idx as int);
            }
            if self.programs[idx].floating_window.is_some() {
                self.remove_floating_window(class)
            } else {
                Ok(())
            }
        }
    }

    /// The close flow at an explicit time: removes the handle and, when
    /// the restore advisor approves, returns the origin workspace the
    /// caller should switch back to.
    pub fn window_closed_at(&mut self, address: u64, now: i64) -> (r: Option<i32>)
        requires
            old(self).wf(),
        ensures
            final(self).wf(),
            final(self)@ == old(self)@.window_closed_spec(address, now).0,
            r == old(self)@.window_closed_spec(address, now).1,
    {
        match self.remove_window(address) {
            None => None,
            Some(w) => {
                if crate::restore::should_return_to_origin(
                    &w,
                    now,
                    self.restore_timeout,
                    &self.restore_list,
                    self.restore_mode,
                ) {
                    Some(w.origin)
                } else {
                    None
                }
            },
        }
    }

    /// The close flow at the present moment, as the event handlers call
    /// it.
    pub fn window_closed(&mut self, address: u64) -> (r: Option<i32>)
        requires
            old(self).wf(),
        ensures
            final(self).wf(),
            exists|now: i64|
                final(self)@ == old(self)@.window_closed_spec(address, now).0 && r == old(
                    self,
                )@.window_closed_spec(address, now).1,
    {
        let now = now_seconds();
        let r = self.window_closed_at(address, now);
        proof {
            assert(final(self)@ == old(self)@.window_closed_spec(address, now).0 && r == old(
                self,
            )@.window_closed_spec(address, now).1);
        }
        r
    }

    /// Where a newly opened window of `class` belongs: the workspace its
    /// scored history selects, or the current workspace when there is no
    /// history to score (the window then simply stays where it opened).
    pub fn target_workspace(&self, class: String, tau: i64, now: i64) -> (r: i32)
        requires
            self.wf(),
            tau >= 1,
        ensures
            ({
                let hist = if self@.programs.contains_key(class@) {
                    self@.programs[class@].workspaces
                } else {
                    Seq::<Workspace>::empty()
                };
                if hist.len() == 0 {
                    r == self@.current_workspace
                } else {
                    crate::score::is_selected(hist, now as int, tau as int, Some(r))
                }
            }),
    {
        match self.get_program(class) {
            Some(p) => match crate::score::calculate_workspace(&p.workspaces, tau, now) {
                Some(id) => id,
                None => self.current_workspace(),
            },
            None => self.current_workspace(),
        }
    }

    /// A point-in-time copy of every record, one per class.
    pub fn get_programs(&self) -> (r: Vec<Program>)
        requires
            self.wf(),
        ensures
            forall|i: int|
                0 <= i < r@.len() ==> self@.programs.contains_key((#[trigger] r@[i])@.class)
                    && self@.programs[r@[i]@.class] == r@[i]@,
            forall|c: Seq<char>|
                #[trigger] self@.programs.contains_key(c) ==> exists|i: int|
                    0 <= i < r@.len() && (#[trigger] r@[i])@.class == c,
            forall|i: int, j: int| 0 <= i < j < r@.len() ==> r@[i]@.class != r@[j]@.class,
    {
        let mut r: Vec<Program> = Vec::new();
        let mut i: usize = 0;
        while i < self.programs.len()
            invariant
                0 <= i <= self.programs@.len(),
                r@.len() == i,
                forall|j: int| 0 <= j < i ==> (#[trigger] r@[j])@ == self.programs@[j]@,
            decreases self.programs@.len() - i,
        {
            r.push(self.programs[i].clone());
            i = i + 1;
        }
        proof {
            assert forall|i2: int| 0 <= i2 < r@.len() implies self@.programs.contains_key(
                (#[trigger] r@[i2])@.class,
            ) && self@.programs[r@[i2]@.class] == r@[i2]@ by {
                lemma_programs_map_get(self.programs@, i2);
            }
            assert forall|c: Seq<char>| #[trigger] self@.programs.contains_key(c) implies exists|
                i2: int,
            | 0 <= i2 < r@.len() && (#[trigger] r@[i2])@.class == c by {
                lemma_programs_map_contains(self.programs@, c);
                let i2 = choose|i2: int| 0 <= i2 < self.programs@.len() && self.programs@[i2]@.class
                    == c;
                assert(r@[i2]@.class == c);
            }
        }
        r
    }

    /// A point-in-time copy of the record map, keyed by class.
    pub fn get_mapped_programs(&self) -> (r: vstd::hash_map::StringHashMap<Program>)
        requires
            self.wf(),
        ensures
            r@.dom() == self@.programs.dom(),
            forall|c: Seq<char>|
                #[trigger] self@.programs.contains_key(c) ==> r@.contains_key(c) && r@[c]@
                    == self@.programs[c],
    {
        let mut r = vstd::hash_map::StringHashMap::<Program>::new();
        let mut i: usize = 0;
        while i < self.programs.len()
            invariant
                0 <= i <= self.programs@.len(),
                self.wf(),
                r@.dom() == programs_map(self.programs@.take(i as int)).dom(),
                forall|c: Seq<char>|
                    #[trigger] programs_map(self.programs@.take(i as int)).contains_key(c)
                        ==> r@.contains_key(c) && r@[c]@ == programs_map(
                        self.programs@.take(i as int),
                    )[c],
            decreases self.programs@.len() - i,
        {
            let p = self.programs[i].clone();
            let cls = p.class.clone();
            let ghost pre = programs_map(self.programs@.take(i as int));
            r.insert(cls, p);
            proof {
                assert(self.programs@.take(i + 1).drop_last() =~= self.programs@.take(i as int));
                assert(self.programs@.take(i + 1).last() == self.programs@[i as int]);
                assert(programs_map(self.programs@.take(i + 1)) == pre.insert(
                    self.programs@[i as int]@.class,
                    self.programs@[i as int]@,
                ));
                assert(r@.dom() =~= programs_map(self.programs@.take(i + 1)).dom());
            }
            i = i + 1;
        }
        proof {
            assert(self.programs@.take(self.programs@.len() as int) =~= self.programs@);
        }
        r
    }

    /// A copy of the record of `class`, if one exists.
    pub fn get_program(&self, class: String) -> (r: Option<Program>)
        requires
            self.wf(),
        ensures
            match r {
                Some(p) => self@.programs.contains_key(class@) && p@ == self@.programs[class@],
                None => !self@.programs.contains_key(class@),
            },
    {
        proof {
            lemma_programs_map_contains(self.programs@, class@);
        }
        match self.find_program(&class) {
            Some(i) => {
                proof {
                    lemma_programs_map_get(self.programs@, i as int);
                }
                Some(self.programs[i].clone())
            },
            None => None,
        }
    }
}

// ---------------------------------------------------------------------------
// Laws of the store.
// ---------------------------------------------------------------------------

/// Every record's history fits the buffer.
pub open spec fn placements_bounded(s: StateView) -> bool {
    forall|c: Seq<char>|
        #[trigger] s.programs.contains_key(c) ==> s.programs[c].workspaces.len()
            <= s.workspace_buffer
}

/// Law: registering a window keeps every placement history within the
/// buffer, for any buffer of at least one.  (A fresh record starts with a
/// single placement, so a zero buffer would be exceeded right there.)
pub proof fn lemma_add_window_keeps_bound(s: StateView, class: Seq<char>, address: u64, now: i64)
    requires
        placements_bounded(s),
        s.workspace_buffer >= 1,
    ensures
        placements_bounded(s.add_window_spec(class, address, now)),
{
    let s2 = s.add_window_spec(class, address, now);
    assert forall|c: Seq<char>| #[trigger] s2.programs.contains_key(c) implies s2.programs[c].workspaces.len()
        <= s2.workspace_buffer by {
        if !s.programs.contains_key(class) && c == class {
        } else {
            assert(s.programs.contains_key(c));
        }
    }
}

/// Law: recording an external move keeps every placement history within
/// the buffer, and the trim evicts from the front, oldest first.
pub proof fn lemma_window_moved_keeps_bound(
    s: StateView,
    address: u64,
    workspace_id: i32,
    now: i64,
)
    requires
        placements_bounded(s),
    ensures
        placements_bounded(s.window_moved_spec(address, workspace_id, now).0),
{
    let s2 = s.window_moved_spec(address, workspace_id, now).0;
    assert forall|c: Seq<char>| #[trigger] s2.programs.contains_key(c) implies s2.programs[c].workspaces.len()
        <= s2.workspace_buffer by {
        assert(s.programs.contains_key(c) || s2.programs[c] == s.programs[c]);
        if s.addresses.contains_key(address) {
            let class = s.addresses[address].class;
            if s.programs.contains_key(class) && c == class && !s.programs[class].moved {
                let pushed = s.programs[class].workspaces.push(
                    Workspace { workspace_id, timestamp: now },
                );
                assert(s.programs.contains_key(class));
                if pushed.len() > s.workspace_buffer {
                    assert(trim_front(pushed, s.workspace_buffer as int).len()
                        == s.workspace_buffer);
                }
            } else {
                assert(s.programs.contains_key(c));
            }
        } else {
            assert(s.programs.contains_key(c));
        }
    }
}

/// Law: a daemon-issued move and the compositor's echoing window-moved
/// event cancel out.  Arming the move and then recording the very next
/// move event for that address leaves the placement history untouched,
/// consumes the suppression exactly once (the flag ends clear), leaves
/// the changed flag as it was, and touches no handle.
pub proof fn lemma_suppression_consumed_once(
    s: StateView,
    address: u64,
    workspace_id: i32,
    now: i64,
)
    requires
        s.addresses.contains_key(address),
        s.programs.contains_key(s.addresses[address].class),
        filter_applies(s.addresses[address].class, s.workspace_list, s.workspace_mode),
    ensures
        ({
            let class = s.addresses[address].class;
            let (s1, r1) = s.move_window_spec(address);
            let (s2, r2) = s1.window_moved_spec(address, workspace_id, now);
            r1 == Ok::<bool, Error>(true) && r2 == Ok::<(), Error>(())
                && s2.programs[class].workspaces == s.programs[class].workspaces
                && !s2.programs[class].moved && s2.changed == s.changed && s2.addresses
                == s.addresses
        }),
{
}

/// Law: with the suppression flag clear, an external move is recorded:
/// the placement is appended (evicting from the front past the buffer),
/// the flag stays clear, and the store is marked changed.
pub proof fn lemma_external_move_appends(s: StateView, address: u64, workspace_id: i32, now: i64)
    requires
        s.addresses.contains_key(address),
        s.programs.contains_key(s.addresses[address].class),
        !s.programs[s.addresses[address].class].moved,
    ensures
        ({
            let class = s.addresses[address].class;
            let (s1, r) = s.window_moved_spec(address, workspace_id, now);
            r == Ok::<(), Error>(()) && s1.programs[class].workspaces == trim_front(
                s.programs[class].workspaces.push(Workspace { workspace_id, timestamp: now }),
                s.workspace_buffer as int,
            ) && !s1.programs[class].moved && s1.changed
        }),
{
}

/// Law: the suppression is consumed by one event only.  After a
/// daemon-issued move and its echo, a second window-moved event with no
/// new `move_window` between them appends a placement as any external
/// move would.
pub proof fn lemma_second_external_move_appends(
    s: StateView,
    address: u64,
    first_id: i32,
    first_now: i64,
    second_id: i32,
    second_now: i64,
)
    requires
        s.addresses.contains_key(address),
        s.programs.contains_key(s.addresses[address].class),
        filter_applies(s.addresses[address].class, s.workspace_list, s.workspace_mode),
    ensures
        ({
            let class = s.addresses[address].class;
            let (s1, r1) = s.move_window_spec(address);
            let (s2, r2) = s1.window_moved_spec(address, first_id, first_now);
            let (s3, r3) = s2.window_moved_spec(address, second_id, second_now);
            r3 == Ok::<(), Error>(()) && s3.programs[class].workspaces == trim_front(
                s.programs[class].workspaces.push(
                    Workspace { workspace_id: second_id, timestamp: second_now },
                ),
                s.workspace_buffer as int,
            ) && s3.changed
        }),
{
    let class = s.addresses[address].class;
    let (s1, r1) = s.move_window_spec(address);
    let (s2, r2) = s1.window_moved_spec(address, first_id, first_now);
    lemma_suppression_consumed_once(s, address, first_id, first_now);
    lemma_external_move_appends(s2, address, second_id, second_now);
}

/// Law: storing the geometry a record already holds is a complete no-op:
/// the store — the changed flag included — is returned exactly as it was.
pub proof fn lemma_set_geometry_idempotent(s: StateView, class: Seq<char>, w: FloatingWindow)
    requires
        s.programs.contains_key(class),
        s.programs[class].floating_window == Some(w),
    ensures
        s.add_floating_window_spec(class, w) == (s, Ok::<(), Error>(())),
{
}

/// Law: storing the same geometry twice in a row: the second call leaves
/// the store of the first call untouched.  In particular, if a flush
/// cleared the changed flag between the two calls, the second call leaves
/// it clear: no spurious writes from the polling loop.
pub proof fn lemma_set_geometry_twice(s: StateView, class: Seq<char>, w: FloatingWindow)
    requires
        s.programs.contains_key(class),
    ensures
        ({
            let s1 = s.add_floating_window_spec(class, w).0;
            s1.add_floating_window_spec(class, w) == (s1, Ok::<(), Error>(()))
        }),
{
    let s1 = s.add_floating_window_spec(class, w).0;
    assert(s1.programs[class].floating_window == Some(w));
    lemma_set_geometry_idempotent(s1, class, w);
}

} // verus!
