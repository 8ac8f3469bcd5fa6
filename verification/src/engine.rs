//! The filter/selection engine: a command history, a live query, the
//! derived filtered view and a selection cursor, driven by discrete input
//! events, plus a read-only render model for a display layer.

use vstd::prelude::*;
use crate::text::{chars_contain, chars_to_string, contains_seq, lower_of, str_to_chars, to_lower};

verus! {

/// A command matches a query when the lowercased command text contains the
/// lowercased query as a substring.
pub open spec fn match_query(text: Seq<char>, q: Seq<char>) -> bool {
    contains_seq(lower_of(text), lower_of(q))
}

/// The index sequence `0, 1, ..., n - 1`.
pub open spec fn identity_upto(n: int) -> Seq<usize>
    decreases n,
{
    if n <= 0 {
        Seq::empty()
    } else {
        identity_upto(n - 1).push((n - 1) as usize)
    }
}

/// The indices among the first `n` history entries whose text matches the
/// query, in increasing order.
pub open spec fn matching_upto(h: Seq<Seq<char>>, q: Seq<char>, n: int) -> Seq<usize>
    decreases n,
{
    if n <= 0 {
        Seq::empty()
    } else {
        let p = matching_upto(h, q, n - 1);
        if match_query(h[n - 1], q) {
            p.push((n - 1) as usize)
        } else {
            p
        }
    }
}

/// The filtered view of a history under a query: every index when the query
/// is empty, otherwise exactly the indices of matching entries, always in
/// the history's own order.
pub open spec fn filtered_spec(h: Seq<Seq<char>>, q: Seq<char>) -> Seq<usize> {
    if q.len() == 0 {
        identity_upto(h.len() as int)
    } else {
        matching_upto(h, q, h.len() as int)
    }
}

proof fn lemma_identity_upto(n: int)
    requires
        0 <= n <= usize::MAX,
    ensures
        identity_upto(n).len() == n,
        forall|j: int|
            #![trigger identity_upto(n)[j]]
            0 <= j < n ==> (identity_upto(n)[j] as int) == j,
    decreases n,
{
    if n > 0 {
        lemma_identity_upto(n - 1);
    }
}

proof fn lemma_matching_upto(h: Seq<Seq<char>>, q: Seq<char>, n: int)
    requires
        0 <= n <= h.len(),
        h.len() <= usize::MAX,
    ensures
        forall|j: int|
            #![trigger matching_upto(h, q, n)[j]]
            0 <= j < matching_upto(h, q, n).len() ==> (matching_upto(h, q, n)[j] as int) < n,
        forall|i: int, j: int|
            0 <= i < j < matching_upto(h, q, n).len() ==> matching_upto(h, q, n)[i] < matching_upto(
                h,
                q,
                n,
            )[j],
        forall|x: usize|
            #[trigger] matching_upto(h, q, n).contains(x) <==> (x as int) < n && match_query(
                h[x as int],
                q,
            ),
    decreases n,
{
    if n > 0 {
        lemma_matching_upto(h, q, n - 1);
        let p = matching_upto(h, q, n - 1);
        let m = matching_upto(h, q, n);
        if match_query(h[n - 1], q) {
            assert(m == p.push((n - 1) as usize));
            assert forall|x: usize| #[trigger] m.contains(x) implies (x as int) < n && match_query(
                h[x as int],
                q,
            ) by {
                let idx = choose|idx: int| 0 <= idx < m.len() && m[idx] == x;
                if idx < p.len() {
                    assert(p[idx] == x);
                    assert(p.contains(x));
                } else {
                    assert(x == (n - 1) as usize);
                }
            }
            assert forall|x: usize| (x as int) < n && match_query(h[x as int], q) implies #[trigger] m.contains(
                x,
            ) by {
                if (x as int) < n - 1 {
                    assert(p.contains(x));
                    let idx = choose|idx: int| 0 <= idx < p.len() && p[idx] == x;
                    assert(m[idx] == x);
                } else {
                    assert(m[p.len() as int] == x);
                }
            }
        } else {
            assert(m == p);
            assert forall|x: usize| (x as int) < n && match_query(h[x as int], q) implies #[trigger] m.contains(
                x,
            ) by {
                assert(x as int != n - 1);
            }
        }
    }
}

/// Filter law: the filtered view holds only in-range indices, in strictly
/// increasing (that is, original) order; under a non-empty query it holds
/// exactly the indices of matching entries; under an empty query it is the
/// identity over the whole history.
pub proof fn lemma_filter_correct(h: Seq<Seq<char>>, q: Seq<char>)
    requires
        h.len() <= usize::MAX,
    ensures
        forall|j: int|
            #![trigger filtered_spec(h, q)[j]]
            0 <= j < filtered_spec(h, q).len() ==> (filtered_spec(h, q)[j] as int) < h.len(),
        forall|i: int, j: int|
            0 <= i < j < filtered_spec(h, q).len() ==> filtered_spec(h, q)[i] < filtered_spec(
                h,
                q,
            )[j],
        q.len() > 0 ==> (forall|x: usize|
            #[trigger] filtered_spec(h, q).contains(x) <==> (x as int) < h.len() && match_query(
                h[x as int],
                q,
            )),
        q.len() == 0 ==> filtered_spec(h, q).len() == h.len() && (forall|j: int|
            #![trigger filtered_spec(h, q)[j]]
            0 <= j < h.len() ==> (filtered_spec(h, q)[j] as int) == j),
{
    if q.len() == 0 {
        lemma_identity_upto(h.len() as int);
    } else {
        lemma_matching_upto(h, q, h.len() as int);
    }
}

/// The words of the initial command line, joined by single spaces.
pub open spec fn joined(args: Seq<Seq<char>>) -> Seq<char>
    decreases args.len(),
{
    if args.len() == 0 {
        Seq::empty()
    } else if args.len() == 1 {
        args[0]
    } else {
        joined(args.drop_last()) + seq![' '] + args[args.len() - 1]
    }
}

/// The command strings visible through a filtered view.
pub open spec fn visible_spec(h: Seq<Seq<char>>, f: Seq<usize>) -> Seq<Seq<char>> {
    Seq::new(f.len(), |j: int| h[f[j] as int])
}

/// A discrete input event, as the input boundary classifies key presses.
pub enum AppEvent {
    /// End the session with no selection.
    Quit,
    /// Move the selection cursor forward, wrapping around.
    MoveDown,
    /// Move the selection cursor backward, wrapping around.
    MoveUp,
    /// Append a character to the query.
    AppendChar(char),
    /// Remove the last character of the query, if any.
    Backspace,
    /// End the session, selecting the entry under the cursor, if any.
    Confirm,
    /// Any other key; ignored.
    Other,
}

/// The cursor after a forward move over a filtered view of length `len`.
pub open spec fn next_sel(sel: Option<usize>, len: int) -> Option<usize> {
    if len == 0 {
        sel
    } else {
        match sel {
            Some(i) => if i as int >= len - 1 {
                Some(0usize)
            } else {
                Some((i + 1) as usize)
            },
            None => Some(0usize),
        }
    }
}

/// The cursor after a backward move over a filtered view of length `len`.
pub open spec fn prev_sel(sel: Option<usize>, len: int) -> Option<usize> {
    if len == 0 {
        sel
    } else {
        match sel {
            Some(i) => if i as int == 0 {
                Some((len - 1) as usize)
            } else {
                Some((i - 1) as usize)
            },
            None => Some(0usize),
        }
    }
}

/// The interactive session state: the immutable command history, the live
/// query, the filtered view derived from it, the selection cursor, and the
/// session outcome.
pub struct App {
    pub should_quit: bool,
    pub command_history: Vec<String>,
    pub search_input: Vec<char>,
    pub filtered_commands: Vec<usize>,
    pub selected: Option<usize>,
    pub selected_command: Option<String>,
}

/// A read-only snapshot for a display layer: the query text, the visible
/// command strings, the highlighted position, and the filtered and total
/// counts.
pub struct RenderModel {
    pub query: String,
    pub visible: Vec<String>,
    pub highlighted: Option<usize>,
    pub filtered_count: usize,
    pub total_count: usize,
}

impl App {
    /// Cursor bookkeeping invariant: the cursor points into the filtered
    /// view exactly when that view is non-empty, and every filtered index
    /// points into the history.
    pub open spec fn inv(self) -> bool {
        &&& (match self.selected {
            Some(i) => self.filtered_commands@.len() > 0 && (i as int)
                < self.filtered_commands@.len(),
            None => self.filtered_commands@.len() == 0,
        })
        &&& forall|j: int|
            #![trigger self.filtered_commands@[j]]
            0 <= j < self.filtered_commands@.len() ==> (self.filtered_commands@[j] as int)
                < self.command_history@.len()
    }

    /// Builds the initial state: the given history, a query seeded from the
    /// initial arguments joined by spaces, the filtered view derived from
    /// that query, and the cursor on the first visible entry, if any.
    pub fn new(command_history: Vec<String>, initial_args: Vec<String>) -> (app: App)
        ensures
            app.command_history == command_history,
            app.search_input@ == joined(initial_args.deep_view()),
            app.filtered_commands@ == filtered_spec(command_history.deep_view(), app.search_input@),
            app.selected == (if app.filtered_commands@.len() > 0 {
                Some(0usize)
            } else {
                None::<usize>
            }),
            app.should_quit == false,
            app.selected_command is None,
            app.inv(),
    {
        let search_input = join_args(&initial_args);
        let filtered_commands = Self::filter_commands(&command_history, &search_input);
        let selected: Option<usize> = if filtered_commands.len() > 0 {
            Some(0)
        } else {
            None
        };
        App {
            should_quit: false,
            command_history,
            search_input,
            filtered_commands,
            selected,
            selected_command: None,
        }
    }

    /// Computes the filtered view of `commands` under `query`: every index
    /// for an empty query, otherwise exactly the indices of the entries
    /// whose lowercased text contains the lowercased query.
    pub fn filter_commands(commands: &Vec<String>, query: &Vec<char>) -> (r: Vec<usize>)
        ensures
            r@ == filtered_spec(commands.deep_view(), query@),
            forall|j: int|
                #![trigger r@[j]]
                0 <= j < r@.len() ==> (r@[j] as int) < commands@.len(),
    {
        let h_len = commands.len();
        proof {
            lemma_filter_correct(commands.deep_view(), query@);
        }
        let mut r: Vec<usize> = Vec::new();
        if query.len() == 0 {
            let mut i: usize = 0;
            while i < h_len
                invariant
                    i <= h_len,
                    h_len == commands@.len(),
                    r@ == identity_upto(i as int),
                decreases h_len - i,
            {
                r.push(i);
                i = i + 1;
            }
            return r;
        }
        let q_string = chars_to_string(query);
        let q_lower = to_lower(q_string.as_str());
        let q_chars = str_to_chars(q_lower.as_str());
        let mut i: usize = 0;
        while i < h_len
            invariant
                i <= h_len,
                h_len == commands@.len(),
                query@.len() > 0,
                q_chars@ == lower_of(query@),
                r@ == matching_upto(commands.deep_view(), query@, i as int),
            decreases h_len - i,
        {
            let entry = &commands[i];
            let c_lower = to_lower(entry.as_str());
            let c_chars = str_to_chars(c_lower.as_str());
            proof {
                assert(commands.deep_view()[i as int] == commands@[i as int]@);
            }
            if chars_contain(&c_chars, &q_chars) {
                r.push(i);
            }
            i = i + 1;
        }
        r
    }

    /// Recomputes the filtered view from the current query and resets the
    /// cursor to the first visible entry, if any.
    fn update_filter(&mut self)
        ensures
            final(self).command_history == old(self).command_history,
            final(self).search_input == old(self).search_input,
            final(self).should_quit == old(self).should_quit,
            final(self).selected_command == old(self).selected_command,
            final(self).filtered_commands@ == filtered_spec(
                old(self).command_history.deep_view(),
                old(self).search_input@,
            ),
            final(self).selected == (if final(self).filtered_commands@.len() > 0 {
                Some(0usize)
            } else {
                None::<usize>
            }),
            final(self).inv(),
    {
        let f = Self::filter_commands(&self.command_history, &self.search_input);
        self.filtered_commands = f;
        if self.filtered_commands.len() > 0 {
            self.selected = Some(0);
        } else {
            self.selected = None;
        }
    }

    /// Advances the cursor circularly forward through the filtered view; a
    /// no-op when the view is empty.
    fn select_next(&mut self)
        requires
            old(self).inv(),
        ensures
            final(self).inv(),
            final(self).selected == next_sel(
                old(self).selected,
                old(self).filtered_commands@.len() as int,
            ),
            final(self).command_history == old(self).command_history,
            final(self).search_input == old(self).search_input,
            final(self).filtered_commands == old(self).filtered_commands,
            final(self).should_quit == old(self).should_quit,
            final(self).selected_command == old(self).selected_command,
    {
        if self.filtered_commands.len() == 0 {
            return ;
        }
        let i: usize = match self.selected {
            Some(i) => if i >= self.filtered_commands.len() - 1 {
                0
            } else {
                i + 1
            },
            None => 0,
        };
        self.selected = Some(i);
    }

    /// Advances the cursor circularly backward through the filtered view; a
    /// no-op when the view is empty.
    fn select_previous(&mut self)
        requires
            old(self).inv(),
        ensures
            final(self).inv(),
            final(self).selected == prev_sel(
                old(self).selected,
                old(self).filtered_commands@.len() as int,
            ),
            final(self).command_history == old(self).command_history,
            final(self).search_input == old(self).search_input,
            final(self).filtered_commands == old(self).filtered_commands,
            final(self).should_quit == old(self).should_quit,
            final(self).selected_command == old(self).selected_command,
    {
        if self.filtered_commands.len() == 0 {
            return ;
        }
        let i: usize = match self.selected {
            Some(i) => if i == 0 {
                self.filtered_commands.len() - 1
            } else {
                i - 1
            },
            None => 0,
        };
        self.selected = Some(i);
    }

    /// One step of the session state machine, driven by a classified input
    /// event.
    pub fn handle_event(&mut self, event: AppEvent)
        requires
            old(self).inv(),
        ensures
            final(self).inv(),
            step(*old(self), event, *final(self)),
    {
        match event {
            AppEvent::Quit => {
                self.should_quit = true;
            },
            AppEvent::MoveDown => {
                self.select_next();
            },
            AppEvent::MoveUp => {
                self.select_previous();
            },
            AppEvent::AppendChar(c) => {
                self.search_input.push(c);
                self.update_filter();
            },
            AppEvent::Backspace => {
                self.search_input.pop();
                self.update_filter();
            },
            AppEvent::Confirm => {
                if let Some(i) = self.selected {
                    let idx = self.filtered_commands[i];
                    let text = self.command_history[idx].clone();
                    self.selected_command = Some(text);
                }
                self.should_quit = true;
            },
            AppEvent::Other => {},
        }
    }

    /// Builds the read-only snapshot for a display layer.
    pub fn render_model(&self) -> (m: RenderModel)
        requires
            self.inv(),
        ensures
            m.query@ == self.search_input@,
            m.visible.deep_view() == visible_spec(
                self.command_history.deep_view(),
                self.filtered_commands@,
            ),
            m.highlighted == self.selected,
            m.filtered_count == self.filtered_commands@.len(),
            m.total_count == self.command_history@.len(),
    {
        let query = chars_to_string(&self.search_input);
        let mut visible: Vec<String> = Vec::new();
        let mut i: usize = 0;
        while i < self.filtered_commands.len()
            invariant
                self.inv(),
                i <= self.filtered_commands@.len(),
                visible.deep_view() == visible_spec(
                    self.command_history.deep_view(),
                    self.filtered_commands@,
                ).subrange(0, i as int),
            decreases self.filtered_commands@.len() - i,
        {
            let ghost pre = visible.deep_view();
            let idx = self.filtered_commands[i];
            let entry = self.command_history[idx].clone();
            visible.push(entry);
            proof {
                let vs = visible_spec(self.command_history.deep_view(), self.filtered_commands@);
                assert(visible.deep_view() =~= pre.push(
                    self.command_history.deep_view()[idx as int],
                ));
                assert(vs.subrange(0, i as int).push(vs[i as int]) =~= vs.subrange(0, i + 1));
            }
            i = i + 1;
        }
        proof {
            let vs = visible_spec(self.command_history.deep_view(), self.filtered_commands@);
            assert(vs.subrange(0, vs.len() as int) =~= vs);
        }
        RenderModel {
            query,
            visible,
            highlighted: self.selected,
            filtered_count: self.filtered_commands.len(),
            total_count: self.command_history.len(),
        }
    }
}

/// The session transition relation: how one classified event takes the
/// engine from one state to the next.
pub open spec fn step(pre: App, event: AppEvent, post: App) -> bool {
    match event {
        AppEvent::Quit => {
            &&& post.should_quit == true
            &&& post.command_history == pre.command_history
            &&& post.search_input == pre.search_input
            &&& post.filtered_commands == pre.filtered_commands
            &&& post.selected == pre.selected
            &&& post.selected_command == pre.selected_command
        },
        AppEvent::MoveDown => {
            &&& post.selected == next_sel(pre.selected, pre.filtered_commands@.len() as int)
            &&& post.should_quit == pre.should_quit
            &&& post.command_history == pre.command_history
            &&& post.search_input == pre.search_input
            &&& post.filtered_commands == pre.filtered_commands
            &&& post.selected_command == pre.selected_command
        },
        AppEvent::MoveUp => {
            &&& post.selected == prev_sel(pre.selected, pre.filtered_commands@.len() as int)
            &&& post.should_quit == pre.should_quit
            &&& post.command_history == pre.command_history
            &&& post.search_input == pre.search_input
            &&& post.filtered_commands == pre.filtered_commands
            &&& post.selected_command == pre.selected_command
        },
        AppEvent::AppendChar(c) => {
            &&& post.search_input@ == pre.search_input@.push(c)
            &&& post.filtered_commands@ == filtered_spec(
                pre.command_history.deep_view(),
                post.search_input@,
            )
            &&& post.selected == (if post.filtered_commands@.len() > 0 {
                Some(0usize)
            } else {
                None::<usize>
            })
            &&& post.should_quit == pre.should_quit
            &&& post.command_history == pre.command_history
            &&& post.selected_command == pre.selected_command
        },
        AppEvent::Backspace => {
            &&& post.search_input@ == (if pre.search_input@.len() > 0 {
                pre.search_input@.drop_last()
            } else {
                pre.search_input@
            })
            &&& post.filtered_commands@ == filtered_spec(
                pre.command_history.deep_view(),
                post.search_input@,
            )
            &&& post.selected == (if post.filtered_commands@.len() > 0 {
                Some(0usize)
            } else {
                None::<usize>
            })
            &&& post.should_quit == pre.should_quit
            &&& post.command_history == pre.command_history
            &&& post.selected_command == pre.selected_command
        },
        AppEvent::Confirm => {
            &&& post.should_quit == true
            &&& post.command_history == pre.command_history
            &&& post.search_input == pre.search_input
            &&& post.filtered_commands == pre.filtered_commands
            &&& post.selected == pre.selected
            &&& (match pre.selected {
                Some(i) => post.selected_command matches Some(t) && (i as int)
                    < pre.filtered_commands@.len() && t@
                    == pre.command_history.deep_view()[pre.filtered_commands@[i as int] as int],
                None => post.selected_command == pre.selected_command,
            })
        },
        AppEvent::Other => post == pre,
    }
}

/// Wrap-around law: with a non-empty filtered view, moving down from the
/// last entry selects the first, and moving up from the first selects the
/// last.
pub proof fn lemma_selection_wraps(pre: App, post_down: App, post_up: App)
    requires
        pre.inv(),
        0 < pre.filtered_commands@.len() <= usize::MAX,
        step(pre, AppEvent::MoveDown, post_down),
        step(pre, AppEvent::MoveUp, post_up),
    ensures
        pre.selected == Some((pre.filtered_commands@.len() - 1) as usize) ==> post_down.selected
            == Some(0usize),
        pre.selected == Some(0usize) ==> post_up.selected == Some(
            (pre.filtered_commands@.len() - 1) as usize,
        ),
{
}

/// Filter-reset law: after a character is appended to or removed from the
/// query, the cursor sits on the first entry of the new filtered view when
/// that view is non-empty, and is cleared otherwise.
pub proof fn lemma_filter_reset(pre: App, event: AppEvent, post: App)
    requires
        step(pre, event, post),
        event matches AppEvent::AppendChar(_) || event == AppEvent::Backspace,
    ensures
        post.selected == (if post.filtered_commands@.len() > 0 {
            Some(0usize)
        } else {
            None::<usize>
        }),
{
}

/// Joins the initial command-line words into a single query, separated by
/// single spaces.
fn join_args(args: &Vec<String>) -> (q: Vec<char>)
    ensures
        q@ == joined(args.deep_view()),
{
    let mut q: Vec<char> = Vec::new();
    let mut i: usize = 0;
    while i < args.len()
        invariant
            i <= args@.len(),
            q@ == joined(args.deep_view().subrange(0, i as int)),
        decreases args@.len() - i,
    {
        if i > 0 {
            q.push(' ');
        }
        let ghost base = q@;
        let entry = &args[i];
        let cs = str_to_chars(entry.as_str());
        let mut j: usize = 0;
        while j < cs.len()
            invariant
                j <= cs@.len(),
                q@ == base + cs@.subrange(0, j as int),
            decreases cs@.len() - j,
        {
            q.push(cs[j]);
            proof {
                assert(base + cs@.subrange(0, j as int).push(cs@[j as int]) =~= base + cs@.subrange(
                    0,
                    j + 1,
                ));
                assert((base + cs@.subrange(0, j as int)).push(cs@[j as int]) =~= base
                    + cs@.subrange(0, j as int).push(cs@[j as int]));
            }
            j = j + 1;
        }
        proof {
            let pref = args.deep_view().subrange(0, i as int);
            let pref1 = args.deep_view().subrange(0, i + 1);
            assert(cs@ =~= cs@.subrange(0, cs@.len() as int));
            assert(args.deep_view()[i as int] == args@[i as int]@);
            assert(pref1.drop_last() =~= pref);
            assert(pref1[pref1.len() - 1] == args.deep_view()[i as int]);
            if i == 0 {
                assert(base =~= Seq::<char>::empty());
                assert(q@ =~= joined(pref1));
            } else {
                assert(base =~= joined(pref) + seq![' ']);
                assert(q@ =~= joined(pref) + seq![' '] + args.deep_view()[i as int]);
                assert(q@ =~= joined(pref1));
            }
        }
        i = i + 1;
    }
    proof {
        assert(args.deep_view().subrange(0, args@.len() as int) =~= args.deep_view());
    }
    q
}

} // verus!
