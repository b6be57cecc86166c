//! Browser-style history: the current path, a back stack of the paths
//! visited before it, and a forward stack of the paths left by `back`.
use vstd::prelude::*;

use crate::paths::{parent, parent_of, path_eq, same_path, text_of};

verus! {

/// What the controller holds: the current path (none before the first
/// navigation), the back stack, oldest first, and the forward stack, whose
/// last element is the next path `forward` returns to.
pub struct NavState {
    pub current: Option<Seq<char>>,
    pub back: Seq<Seq<char>>,
    pub forward: Seq<Seq<char>>,
}

/// Whether `path` is the current path, as paths compare.
pub open spec fn is_current(s: NavState, path: Seq<char>) -> bool {
    match s.current {
        Some(c) => path_eq(c, path),
        None => false,
    }
}

/// The state after navigating to `path`. Navigating to the current path
/// changes nothing. A recorded navigation pushes the current path onto the
/// back stack and empties the forward stack.
pub open spec fn after_navigate(s: NavState, path: Seq<char>, record: bool) -> NavState {
    if is_current(s, path) {
        s
    } else if record {
        NavState {
            current: Some(path),
            back: match s.current {
                Some(c) => s.back.push(c),
                None => s.back,
            },
            forward: Seq::empty(),
        }
    } else {
        NavState { current: Some(path), ..s }
    }
}

/// The state after `back`: the newest path of the back stack becomes
/// current, and the current one goes onto the forward stack.
pub open spec fn after_back(s: NavState) -> NavState {
    if s.back.len() == 0 {
        s
    } else {
        NavState {
            current: Some(s.back.last()),
            back: s.back.drop_last(),
            forward: match s.current {
                Some(c) => s.forward.push(c),
                None => s.forward,
            },
        }
    }
}

/// The state after `forward`, the mirror image of `back`.
pub open spec fn after_forward(s: NavState) -> NavState {
    if s.forward.len() == 0 {
        s
    } else {
        NavState {
            current: Some(s.forward.last()),
            back: match s.current {
                Some(c) => s.back.push(c),
                None => s.back,
            },
            forward: s.forward.drop_last(),
        }
    }
}

/// The state after `up`: a recorded navigation to the parent of the current
/// path, where it has one.
pub open spec fn after_up(s: NavState) -> NavState {
    match s.current {
        Some(c) => match parent_of(c) {
            Some(p) => after_navigate(s, p, true),
            None => s,
        },
        None => s,
    }
}

/// Either stack holds something only once a path is current.
pub open spec fn nav_wf(s: NavState) -> bool {
    s.current is None ==> s.back.len() == 0 && s.forward.len() == 0
}

/// Owns the current path and the back/forward history. Each operation
/// returns whether the listing of the current path is to be loaded again.
pub struct NavigationController {
    current: Option<String>,
    back_stack: Vec<String>,
    forward_stack: Vec<String>,
}

impl View for NavigationController {
    type V = NavState;

    closed spec fn view(&self) -> NavState {
        NavState {
            current: text_of(self.current),
            back: self.back_stack@.map_values(|p: String| p@),
            forward: self.forward_stack@.map_values(|p: String| p@),
        }
    }
}

impl NavigationController {
    /// A controller before its first navigation: no current path and empty
    /// history.
    pub fn new() -> (r: Self)
        ensures
            r@.current is None,
            r@.back.len() == 0,
            r@.forward.len() == 0,
            nav_wf(r@),
    {
        let r = NavigationController {
            current: None,
            back_stack: Vec::new(),
            forward_stack: Vec::new(),
        };
        assert(r@.back =~= Seq::empty());
        assert(r@.forward =~= Seq::empty());
        r
    }

    /// Goes to `path`; with `record_history` the path left behind can be
    /// gone back to, and the forward history is dropped. Going to the
    /// current path does nothing. Returns whether the listing is to be
    /// loaded again, that is whether the path changed.
    pub fn navigate_to(&mut self, path: &str, record_history: bool) -> (reload: bool)
        ensures
            final(self)@ == after_navigate(old(self)@, path@, record_history),
            reload == !is_current(old(self)@, path@),
            is_current(old(self)@, path@) ==> final(self)@ == old(self)@ && !reload,
            nav_wf(old(self)@) ==> nav_wf(final(self)@),
    {
        let same = match &self.current {
            Some(c) => same_path(c.as_str(), path),
            None => false,
        };
        if same {
            return false;
        }
        let ghost prev = self@;
        let mut now = Some(String::from_str(path));
        core::mem::swap(&mut self.current, &mut now);
        if record_history {
            match now {
                Some(c) => {
                    self.back_stack.push(c);
                },
                None => {},
            }
            self.forward_stack.clear();
        }
        assert(self@.back =~= after_navigate(prev, path@, record_history).back);
        assert(self@.forward =~= after_navigate(prev, path@, record_history).forward);
        true
    }

    /// Returns to the newest path of the back stack; nothing happens when
    /// it is empty. Returns whether the listing is to be loaded again.
    pub fn back(&mut self) -> (reload: bool)
        ensures
            final(self)@ == after_back(old(self)@),
            reload == (old(self)@.back.len() > 0),
            nav_wf(old(self)@) ==> nav_wf(final(self)@),
    {
        let ghost prev = self@;
        match self.back_stack.pop() {
            Some(p) => {
                let mut now = Some(p);
                core::mem::swap(&mut self.current, &mut now);
                match now {
                    Some(c) => {
                        self.forward_stack.push(c);
                    },
                    None => {},
                }
                assert(self@.back =~= after_back(prev).back);
                assert(self@.forward =~= after_back(prev).forward);
                true
            },
            None => false,
        }
    }

    /// Returns to the path that the last `back` left; nothing happens when
    /// there is none. Returns whether the listing is to be loaded again.
    pub fn forward(&mut self) -> (reload: bool)
        ensures
            final(self)@ == after_forward(old(self)@),
            reload == (old(self)@.forward.len() > 0),
            nav_wf(old(self)@) ==> nav_wf(final(self)@),
    {
        let ghost prev = self@;
        match self.forward_stack.pop() {
            Some(p) => {
                let mut now = Some(p);
                core::mem::swap(&mut self.current, &mut now);
                match now {
                    Some(c) => {
                        self.back_stack.push(c);
                    },
                    None => {},
                }
                assert(self@.back =~= after_forward(prev).back);
                assert(self@.forward =~= after_forward(prev).forward);
                true
            },
            None => false,
        }
    }

    /// Goes to the parent of the current path, recording the move; nothing
    /// happens at a root. Returns whether the listing is to be loaded again.
    pub fn up(&mut self) -> (reload: bool)
        ensures
            final(self)@ == after_up(old(self)@),
            reload == match old(self)@.current {
                Some(c) => match parent_of(c) {
                    Some(p) => !is_current(old(self)@, p),
                    None => false,
                },
                None => false,
            },
            nav_wf(old(self)@) ==> nav_wf(final(self)@),
    {
        let p = match &self.current {
            Some(c) => parent(c.as_str()),
            None => None,
        };
        match p {
            Some(p) => self.navigate_to(p.as_str(), true),
            None => false,
        }
    }

    /// Asks for the listing of the current path again, leaving the history
    /// as it is; there is nothing to load before the first navigation.
    pub fn refresh(&self) -> (reload: bool)
        ensures
            reload == (self@.current is Some),
    {
        self.current.is_some()
    }

    pub fn can_go_back(&self) -> (r: bool)
        ensures
            r == (self@.back.len() > 0),
    {
        self.back_stack.len() > 0
    }

    pub fn can_go_forward(&self) -> (r: bool)
        ensures
            r == (self@.forward.len() > 0),
    {
        self.forward_stack.len() > 0
    }

    /// The current path, once there is one.
    pub fn current_path(&self) -> (r: Option<String>)
        ensures
            text_of(r) == self@.current,
    {
        match &self.current {
            Some(c) => Some(c.clone()),
            None => None,
        }
    }
}

/// The state after recorded navigations to each of `paths` in turn.
pub open spec fn after_visits(s: NavState, paths: Seq<Seq<char>>) -> NavState
    decreases paths.len(),
{
    if paths.len() == 0 {
        s
    } else {
        after_navigate(after_visits(s, paths.drop_last()), paths.last(), true)
    }
}

/// Recorded navigations to distinct paths (no two equal as paths compare),
/// from a controller that has no
/// current path yet, leave one path fewer on the back stack than there were
/// navigations, the last path current and nothing to go forward to.
pub proof fn lemma_visits_fill_back_stack(s: NavState, paths: Seq<Seq<char>>)
    requires
        s.current is None,
        s.back.len() == 0,
        paths.len() > 0,
        forall|i: int, j: int| 0 <= i < j < paths.len() ==> !path_eq(paths[i], paths[j]),
    ensures
        after_visits(s, paths).back.len() == paths.len() - 1,
        after_visits(s, paths).current == Some(paths.last()),
        after_visits(s, paths).forward.len() == 0,
    decreases paths.len(),
{
    let rest = paths.drop_last();
    if rest.len() > 0 {
        lemma_visits_fill_back_stack(s, rest);
        assert(rest.last() == paths[paths.len() - 2]);
        assert(!path_eq(paths[paths.len() - 2], paths.last()));
    } else {
        assert(after_visits(s, rest) == s);
    }
}

/// `back` directly followed by `forward` restores the state it started
/// from: the same current path, and the same stacks, so an empty forward
/// stack is empty again. This needs something to go back to, or nothing to
/// go forward to.
pub proof fn lemma_back_then_forward(s: NavState)
    requires
        nav_wf(s),
        s.back.len() > 0 || s.forward.len() == 0,
    ensures
        after_forward(after_back(s)) == s,
        after_forward(after_back(s)).current == s.current,
        s.forward.len() == 0 ==> after_forward(after_back(s)).forward.len() == 0,
{
    if s.back.len() > 0 {
        let t = after_forward(after_back(s));
        assert(t.back =~= s.back);
        assert(t.forward =~= s.forward);
    }
}

} // verus!
