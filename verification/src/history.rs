//! The history of commands that the graphical front end steps through.
use vstd::prelude::*;

verus! {

/// The last commands given (the command's name and its arguments), oldest
/// first, at most `cap` of them, and the position that stepping reached.
pub struct CommandHistory {
    entries: Vec<(String, String)>,
    pos: usize,
    cap: usize,
}

/// The abstract history: the entries' texts, the position, the bound.
pub struct HistoryView {
    pub entries: Seq<(Seq<char>, Seq<char>)>,
    pub pos: nat,
    pub cap: nat,
}

/// The texts of a list of command entries.
pub open spec fn entry_texts(v: Seq<(String, String)>) -> Seq<(Seq<char>, Seq<char>)> {
    v.map_values(|e: (String, String)| (e.0@, e.1@))
}

impl View for CommandHistory {
    type V = HistoryView;

    closed spec fn view(&self) -> HistoryView {
        HistoryView { entries: entry_texts(self.entries@), pos: self.pos as nat, cap: self.cap as nat }
    }
}

impl HistoryView {
    /// The position is an entry (or 0 when there is none), and no more
    /// entries are kept than the bound allows.
    pub open spec fn wf(self) -> bool {
        &&& (self.entries.len() == 0 ==> self.pos == 0)
        &&& (self.entries.len() > 0 ==> self.pos < self.entries.len())
        &&& self.entries.len() <= self.cap
    }
}

/// The history after recording one more command: it goes last, the oldest
/// is dropped when there are more than `cap`, and stepping starts again at
/// the first position.
pub open spec fn recorded(h: HistoryView, e: (Seq<char>, Seq<char>)) -> HistoryView {
    let es = h.entries.push(e);
    HistoryView { entries: if es.len() > h.cap { es.drop_first() } else { es }, pos: 0, cap: h.cap }
}

impl CommandHistory {
    /// An empty history that keeps at most `cap` commands.
    pub fn new(cap: usize) -> (r: CommandHistory)
        ensures
            r@ == (HistoryView { entries: Seq::empty(), pos: 0, cap: cap as nat }),
            r@.wf(),
    {
        let r = CommandHistory { entries: Vec::new(), pos: 0, cap };
        assert(r@.entries =~= Seq::<(Seq<char>, Seq<char>)>::empty());
        r
    }

    /// How many commands are kept.
    pub fn len(&self) -> (r: usize)
        ensures
            r == self@.entries.len(),
    {
        self.entries.len()
    }

    /// Records a command given.
    pub fn record(&mut self, choice: String, args: String)
        requires
            old(self)@.wf(),
        ensures
            final(self)@ == recorded(old(self)@, (choice@, args@)),
            final(self)@.wf(),
    {
        let ghost h = self@;
        let ghost e = (choice@, args@);
        self.entries.push((choice, args));
        assert(entry_texts(self.entries@) =~= h.entries.push(e));
        if self.entries.len() > self.cap {
            self.entries.remove(0);
            assert(entry_texts(self.entries@) =~= h.entries.push(e).drop_first());
        }
        self.pos = 0;
    }

    /// The entry at the position, as owned texts.
    fn at_pos(&self) -> (r: (String, String))
        requires
            self@.pos < self@.entries.len(),
        ensures
            (r.0@, r.1@) == self@.entries[self@.pos as int],
    {
        let e = &self.entries[self.pos];
        (e.0.clone(), e.1.clone())
    }

    /// Steps one entry further (up to the last); `None` when nothing is kept.
    pub fn up(&mut self) -> (r: Option<(String, String)>)
        requires
            old(self)@.wf(),
        ensures
            final(self)@.wf(),
            final(self)@.entries == old(self)@.entries,
            final(self)@.cap == old(self)@.cap,
            old(self)@.entries.len() == 0 ==> r is None && final(self)@ == old(self)@,
            old(self)@.entries.len() > 0 ==> final(self)@.pos == (if old(self)@.pos + 1 < old(self)@.entries.len() {
                old(self)@.pos + 1
            } else {
                (old(self)@.entries.len() - 1) as nat
            }) && (r matches Some(e) && (e.0@, e.1@) == final(self)@.entries[final(self)@.pos as int]),
    {
        if self.entries.len() == 0 {
            return None;
        }
        if self.pos + 1 < self.entries.len() {
            self.pos = self.pos + 1;
        } else {
            self.pos = self.entries.len() - 1;
        }
        Some(self.at_pos())
    }

    /// Steps one entry back (down to the first); `None` when nothing is kept.
    pub fn down(&mut self) -> (r: Option<(String, String)>)
        requires
            old(self)@.wf(),
        ensures
            final(self)@.wf(),
            final(self)@.entries == old(self)@.entries,
            final(self)@.cap == old(self)@.cap,
            old(self)@.entries.len() == 0 ==> r is None && final(self)@ == old(self)@,
            old(self)@.entries.len() > 0 ==> final(self)@.pos == (if old(self)@.pos > 0 {
                (old(self)@.pos - 1) as nat
            } else {
                0
            }) && (r matches Some(e) && (e.0@, e.1@) == final(self)@.entries[final(self)@.pos as int]),
    {
        if self.entries.len() == 0 {
            return None;
        }
        if self.pos > 0 {
            self.pos = self.pos - 1;
        }
        Some(self.at_pos())
    }
}

} // verus!
