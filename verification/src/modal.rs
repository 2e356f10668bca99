//! Modal window stack.
//!
//! Components that need the user's attention push a `WindowContent`
//! onto the `WindowManager`; the most recently pushed window is the
//! one presented. A window may carry a `DeferredAction`: the stack
//! never executes it, it only hands it back to the caller when the
//! window is confirmed.

use vstd::prelude::*;

verus! {

/// The kind of a stacked window, deciding its visual treatment.
#[derive(Clone, Copy, Debug, PartialEq, Eq, Structural)]
pub enum WindowType {
    Info,
    Warning,
    Error,
    /// The entry editor surface.
    AddEntry,
    /// A window presenting an image full size.
    Image,
}

/// Outcome of a user's interaction with the top window.
#[derive(Clone, Copy, Debug, PartialEq, Eq, Structural)]
pub enum WindowMessage {
    /// The user pressed okay (`true`) or cancel (`false`).
    Response(bool),
    /// The user closed the window without answering.
    Close,
}

/// A deferred action carried by a window and released on confirm.
#[derive(Clone, Copy, Debug, PartialEq, Eq, Structural)]
pub enum DeferredAction {
    /// Remove the catalog entry with this id; `checked` records that
    /// the user has already confirmed the removal.
    DeleteEntry { entry_id: u64, checked: bool },
}

/// One stacked modal window.
pub struct WindowContent {
    pub id: u64,
    pub window_type: WindowType,
    pub title: String,
    pub content: String,
    pub window_width: Option<u32>,
    pub show_cancel: bool,
    pub show_okay: bool,
    pub on_confirm: Option<DeferredAction>,
}

/// Mathematical image of a `WindowContent`.
pub struct WindowContentView {
    pub id: u64,
    pub window_type: WindowType,
    pub title: Seq<char>,
    pub content: Seq<char>,
    pub window_width: Option<u32>,
    pub show_cancel: bool,
    pub show_okay: bool,
    pub on_confirm: Option<DeferredAction>,
}

impl View for WindowContent {
    type V = WindowContentView;

    open spec fn view(&self) -> WindowContentView {
        WindowContentView {
            id: self.id,
            window_type: self.window_type,
            title: self.title@,
            content: self.content@,
            window_width: self.window_width,
            show_cancel: self.show_cancel,
            show_okay: self.show_okay,
            on_confirm: self.on_confirm,
        }
    }
}

impl DeepView for WindowContent {
    type V = WindowContentView;

    open spec fn deep_view(&self) -> WindowContentView {
        self.view()
    }
}

impl WindowContent {
    /// A window with no deferred action attached.
    pub fn new(
        id: u64,
        window_type: WindowType,
        title: String,
        content: String,
        window_width: Option<u32>,
        show_cancel: bool,
        show_okay: bool,
    ) -> (w: WindowContent)
        ensures
            w@ == (WindowContentView {
                id,
                window_type,
                title: title@,
                content: content@,
                window_width,
                show_cancel,
                show_okay,
                on_confirm: None::<DeferredAction>,
            }),
    {
        WindowContent {
            id,
            window_type,
            title,
            content,
            window_width,
            show_cancel,
            show_okay,
            on_confirm: None,
        }
    }

    /// The same window, now carrying `action` for release on confirm.
    pub fn with_confirm(self, action: DeferredAction) -> (w: WindowContent)
        ensures
            w@ == (WindowContentView { on_confirm: Some(action), ..self@ }),
    {
        WindowContent { on_confirm: Some(action), ..self }
    }
}

/// Index of the topmost window with the given id, or `-1` if absent.
pub open spec fn top_index_of(s: Seq<WindowContentView>, id: u64) -> int
    decreases s.len(),
{
    if s.len() == 0 {
        -1
    } else if s.last().id == id {
        s.len() - 1
    } else {
        top_index_of(s.drop_last(), id)
    }
}

pub proof fn lemma_top_index_of_in_range(s: Seq<WindowContentView>, id: u64)
    ensures
        -1 <= top_index_of(s, id) < s.len(),
        top_index_of(s, id) >= 0 ==> s[top_index_of(s, id)].id == id,
        top_index_of(s, id) == -1 ==> forall|i: int| 0 <= i < s.len() ==> s[i].id != id,
    decreases s.len(),
{
    if s.len() > 0 && s.last().id != id {
        lemma_top_index_of_in_range(s.drop_last(), id);
        if top_index_of(s, id) == -1 {
            assert forall|i: int| 0 <= i < s.len() implies s[i].id != id by {
                if i < s.len() - 1 {
                    assert(s.drop_last()[i] == s[i]);
                }
            }
        }
    }
}

/// A strict LIFO stack of modal windows.
///
/// The stack owns each window from push to pop; nothing is reused
/// after popping. There is no bound on the depth.
pub struct WindowManager {
    windows: Vec<WindowContent>,
}

impl View for WindowManager {
    type V = Seq<WindowContentView>;

    closed spec fn view(&self) -> Seq<WindowContentView> {
        self.windows.deep_view()
    }
}

impl WindowManager {
    /// An empty stack: no window is open.
    pub fn new() -> (m: WindowManager)
        ensures
            m@ == Seq::<WindowContentView>::empty(),
    {
        WindowManager { windows: Vec::new() }
    }

    /// Number of windows currently stacked.
    pub fn depth(&self) -> (n: usize)
        ensures
            n == self@.len(),
    {
        self.windows.len()
    }

    /// Push `window` on top of the stack.
    pub fn add_window(&mut self, window: WindowContent)
        ensures
            final(self)@ == old(self)@.push(window@),
    {
        self.windows.push(window);
    }

    /// The most recently pushed, not yet popped window, if any.
    pub fn get_window(&self) -> (r: Option<&WindowContent>)
        ensures
            match r {
                Some(w) => self@.len() > 0 && w@ == self@.last(),
                None => self@.len() == 0,
            },
    {
        if self.windows.len() == 0 {
            None
        } else {
            let i = self.windows.len() - 1;
            Some(&self.windows[i])
        }
    }

    /// Remove and return the top window; `None` on an empty stack.
    pub fn remove_window(&mut self) -> (r: Option<WindowContent>)
        ensures
            match r {
                Some(w) => {
                    &&& old(self)@.len() > 0
                    &&& w@ == old(self)@.last()
                    &&& final(self)@ == old(self)@.drop_last()
                },
                None => {
                    &&& old(self)@.len() == 0
                    &&& final(self)@ == old(self)@
                },
            },
    {
        let r = self.windows.pop();
        proof {
            if old(self)@.len() > 0 {
                assert(self@ =~= old(self)@.drop_last());
            }
        }
        r
    }

    /// Remove and return the topmost window with the given id;
    /// a no-op returning `None` when no window has that id.
    pub fn remove_window_by_id(&mut self, id: u64) -> (r: Option<WindowContent>)
        ensures
            match r {
                Some(w) => {
                    let i = top_index_of(old(self)@, id);
                    &&& 0 <= i < old(self)@.len()
                    &&& w@ == old(self)@[i]
                    &&& w@.id == id
                    &&& final(self)@ == old(self)@.remove(i)
                },
                None => {
                    &&& top_index_of(old(self)@, id) == -1
                    &&& final(self)@ == old(self)@
                },
            },
    {
        proof {
            lemma_top_index_of_in_range(self@, id);
            assert(self@.take(self@.len() as int) =~= self@);
        }
        let mut i = self.windows.len();
        while i > 0
            invariant
                i <= self@.len(),
                self@ == old(self)@,
                top_index_of(self@.take(i as int), id) == top_index_of(self@, id),
            decreases i,
        {
            i = i - 1;
            proof {
                assert(self@.take(i + 1).drop_last() =~= self@.take(i as int));
            }
            if self.windows[i].id == id {
                assert(self@.take(i + 1).last() == self@[i as int]);
                assert(top_index_of(self@, id) == i);
                let w = self.windows.remove(i);
                return Some(w);
            }
        }
        proof {
            assert(self@.take(0) =~= Seq::<WindowContentView>::empty());
            lemma_top_index_of_in_range(self@, id);
        }
        None
    }

    /// The kind of window the renderer should draw: the top window's
    /// type, or `None` when no window is open.
    pub fn render_window(&self) -> (r: Option<WindowType>)
        ensures
            match r {
                Some(t) => self@.len() > 0 && t == self@.last().window_type,
                None => self@.len() == 0,
            },
    {
        match self.get_window() {
            Some(w) => Some(w.window_type),
            None => None,
        }
    }

    /// Pop the top window and release its deferred action, if any.
    ///
    /// The stack only carries the action; running it is the caller's
    /// business (see `flow`).
    pub fn confirm_window(&mut self) -> (r: Option<DeferredAction>)
        ensures
            old(self)@.len() == 0 ==> final(self)@ == old(self)@ && r is None,
            old(self)@.len() > 0 ==> final(self)@ == old(self)@.drop_last() && r == old(
                self,
            )@.last().on_confirm,
    {
        match self.remove_window() {
            Some(w) => w.on_confirm,
            None => None,
        }
    }
}

/// Law: the stack is a strict LIFO. Pushing `a` then `b` and popping
/// once yields `b`, leaving `a` on top.
pub proof fn lemma_stack_lifo(s: Seq<WindowContentView>, a: WindowContentView, b: WindowContentView)
    ensures
        s.push(a).push(b).last() == b,
        s.push(a).push(b).drop_last() == s.push(a),
{
    assert(s.push(a).push(b).drop_last() =~= s.push(a));
}

} // verus!
