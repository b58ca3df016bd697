//! Borrow arbitration of a storage cell: a counter of borrowers and two
//! flags that bind the cell to a thread.

use crate::error;
use vstd::prelude::*;

verus! {

/// Names a thread.
#[derive(Clone, Copy, Debug, PartialEq, Eq, Hash, Structural)]
pub struct ThreadId(pub u64);

/// Value of the borrow word that stands for one exclusive borrower.
pub const EXCLUSIVE: usize = usize::MAX;

/// Who holds a cell.
pub enum Borrowing {
    /// Nobody.
    Unused,
    /// This many shared borrowers, at least one.
    Shared(nat),
    /// One exclusive borrower.
    Exclusive,
}

/// One word that counts the shared borrowers of a cell or marks its
/// exclusive borrower.
#[derive(Debug)]
pub struct BorrowState {
    word: usize,
}

impl View for BorrowState {
    type V = Borrowing;

    closed spec fn view(&self) -> Borrowing {
        if self.word == 0 {
            Borrowing::Unused
        } else if self.word == EXCLUSIVE {
            Borrowing::Exclusive
        } else {
            Borrowing::Shared(self.word as nat)
        }
    }
}

/// What a shared borrow gets from a cell held as `held`, and how the cell
/// is held afterwards. A cell that is not `sync` takes one borrower at a
/// time, shared or not.
pub open spec fn shared_borrow(held: Borrowing, sync: bool) -> Result<Borrowing, error::Borrow> {
    match held {
        Borrowing::Unused => Ok(Borrowing::Shared(1)),
        Borrowing::Shared(n) => if sync && n + 1 < EXCLUSIVE {
            Ok(Borrowing::Shared(n + 1))
        } else {
            Err(error::Borrow::Shared)
        },
        Borrowing::Exclusive => Err(error::Borrow::Shared),
    }
}

/// What an exclusive borrow gets from a cell held as `held`, and how the
/// cell is held afterwards.
pub open spec fn exclusive_borrow(held: Borrowing) -> Result<Borrowing, error::Borrow> {
    match held {
        Borrowing::Unused => Ok(Borrowing::Exclusive),
        _ => Err(error::Borrow::Exclusive),
    }
}

/// How a cell held as `held` is held after one shared borrower left.
pub open spec fn shared_release(held: Borrowing) -> Borrowing {
    match held {
        Borrowing::Shared(n) => if n <= 1 {
            Borrowing::Unused
        } else {
            Borrowing::Shared((n - 1) as nat)
        },
        _ => held,
    }
}

/// How a cell held as `held` is held after its exclusive borrower left.
pub open spec fn exclusive_release(held: Borrowing) -> Borrowing {
    match held {
        Borrowing::Exclusive => Borrowing::Unused,
        _ => held,
    }
}

impl BorrowState {
    /// Shared counts are at least one and below the exclusive mark.
    pub proof fn lemma_view_range(&self)
        ensures
            self@ matches Borrowing::Shared(n) ==> 1 <= n < EXCLUSIVE,
    {
    }

    /// The state that the borrow word `word` stands for: 0 for a cell
    /// that nobody holds, [`EXCLUSIVE`] for one exclusive borrower, any
    /// other value for that many shared borrowers.
    pub fn from_word(word: usize) -> (state: BorrowState)
        ensures
            state@ == (if word == 0 {
                Borrowing::Unused
            } else if word == EXCLUSIVE {
                Borrowing::Exclusive
            } else {
                Borrowing::Shared(word as nat)
            }),
            state.spec_word() == word,
    {
        BorrowState { word }
    }

    /// The borrow word of the state.
    pub closed spec fn spec_word(&self) -> usize {
        self.word
    }

    /// The borrow word of the state: what [`BorrowState::from_word`]
    /// makes the same state of.
    #[verifier::when_used_as_spec(spec_word)]
    pub fn word(&self) -> (word: usize)
        ensures
            word == self.spec_word(),
            self@ == (if word == 0 {
                Borrowing::Unused
            } else if word == EXCLUSIVE {
                Borrowing::Exclusive
            } else {
                Borrowing::Shared(word as nat)
            }),
    {
        self.word
    }

    /// The state of a cell that nobody holds.
    pub fn new() -> (state: BorrowState)
        ensures
            state@ == Borrowing::Unused,
    {
        BorrowState { word: 0 }
    }

    /// Whether nobody holds the cell.
    pub fn is_unused(&self) -> (unused: bool)
        ensures
            unused == (self@ == Borrowing::Unused),
    {
        self.word == 0
    }

    /// Whether one borrower holds the cell exclusively.
    pub fn is_exclusive(&self) -> (exclusive: bool)
        ensures
            exclusive == (self@ == Borrowing::Exclusive),
    {
        self.word == EXCLUSIVE
    }

    /// Registers a shared borrower, unless the cell is held exclusively,
    /// or is held at all and not `sync`, or the count is at its limit.
    pub fn try_borrow(&mut self, sync: bool) -> (granted: Result<(), error::Borrow>)
        ensures
            granted == (match shared_borrow(old(self)@, sync) {
                Ok(_) => Ok::<(), error::Borrow>(()),
                Err(denied) => Err(denied),
            }),
            final(self)@ == (match shared_borrow(old(self)@, sync) {
                Ok(held) => held,
                Err(_) => old(self)@,
            }),
    {
        if self.word == 0 {
            self.word = 1;
            Ok(())
        } else if self.word != EXCLUSIVE && sync && self.word < EXCLUSIVE - 1 {
            self.word = self.word + 1;
            Ok(())
        } else {
            Err(error::Borrow::Shared)
        }
    }

    /// Registers the exclusive borrower, unless the cell is held.
    pub fn try_borrow_mut(&mut self) -> (granted: Result<(), error::Borrow>)
        ensures
            granted == (match exclusive_borrow(old(self)@) {
                Ok(_) => Ok::<(), error::Borrow>(()),
                Err(denied) => Err(denied),
            }),
            final(self)@ == (match exclusive_borrow(old(self)@) {
                Ok(held) => held,
                Err(_) => old(self)@,
            }),
    {
        if self.word == 0 {
            self.word = EXCLUSIVE;
            Ok(())
        } else {
            Err(error::Borrow::Exclusive)
        }
    }

    /// Lets one shared borrower go and says whether there was one.
    pub fn release(&mut self) -> (released: bool)
        ensures
            released == (old(self)@ is Shared),
            final(self)@ == shared_release(old(self)@),
    {
        if self.word != 0 && self.word != EXCLUSIVE {
            self.word = self.word - 1;
            true
        } else {
            false
        }
    }

    /// Lets the exclusive borrower go and says whether there was one.
    pub fn release_mut(&mut self) -> (released: bool)
        ensures
            released == (old(self)@ is Exclusive),
            final(self)@ == exclusive_release(old(self)@),
    {
        if self.word == EXCLUSIVE {
            self.word = 0;
            true
        } else {
            false
        }
    }
}

/// A value with run-time borrow arbitration.
///
/// `send` binds the cell to one thread: no other thread may borrow it.
/// A cell that is not `is_sync` takes one borrower at a time.
pub struct AtomicRefCell<T> {
    inner: T,
    borrow_state: BorrowState,
    send: Option<ThreadId>,
    is_sync: bool,
}

impl<T> AtomicRefCell<T> {
    /// The value in the cell.
    pub closed spec fn value(&self) -> T {
        self.inner
    }

    /// Who holds the cell.
    pub closed spec fn held(&self) -> Borrowing {
        self.borrow_state@
    }

    /// The thread that the cell is bound to, if any.
    pub closed spec fn affinity(&self) -> Option<ThreadId> {
        self.send
    }

    /// Whether the cell takes several shared borrowers at once.
    pub closed spec fn sync(&self) -> bool {
        self.is_sync
    }

    /// Whether the two cells are held alike and bound alike.
    pub open spec fn same_access(&self, other: &AtomicRefCell<T>) -> bool {
        &&& self.held() == other.held()
        &&& self.affinity() == other.affinity()
        &&& self.sync() == other.sync()
    }

    /// Whether `thread` may borrow the cell at all.
    pub open spec fn right_thread(&self, thread: ThreadId) -> bool {
        self.affinity() matches Some(bound) ==> bound == thread
    }

    /// What a shared borrow from `thread` gets.
    pub open spec fn shared_access(&self, thread: ThreadId) -> Result<(), error::Borrow> {
        if !self.right_thread(thread) {
            Err(error::Borrow::WrongThread)
        } else {
            match shared_borrow(self.held(), self.sync()) {
                Ok(_) => Ok(()),
                Err(denied) => Err(denied),
            }
        }
    }

    /// What an exclusive borrow from `thread` gets.
    pub open spec fn exclusive_access(&self, thread: ThreadId) -> Result<(), error::Borrow> {
        if !self.right_thread(thread) {
            Err(error::Borrow::WrongThread)
        } else {
            match exclusive_borrow(self.held()) {
                Ok(_) => Ok(()),
                Err(denied) => Err(denied),
            }
        }
    }

    /// A cell that nobody holds.
    pub fn new(inner: T, send: Option<ThreadId>, is_sync: bool) -> (cell: AtomicRefCell<T>)
        ensures
            cell.value() == inner,
            cell.held() == Borrowing::Unused,
            cell.affinity() == send,
            cell.sync() == is_sync,
    {
        AtomicRefCell { inner, borrow_state: BorrowState::new(), send, is_sync }
    }

    /// Takes the cell apart and hands out the value.
    pub fn into_inner(self) -> (inner: T)
        ensures
            inner == self.value(),
    {
        self.inner
    }

    /// Whether `thread` may borrow the cell at all.
    fn on_right_thread(&self, thread: ThreadId) -> (right: bool)
        ensures
            right == self.right_thread(thread),
    {
        match self.send {
            Some(bound) => bound.0 == thread.0,
            None => true,
        }
    }

    /// What a shared borrow from `thread` gets.
    pub fn check_shared(&self, thread: ThreadId) -> (granted: Result<(), error::Borrow>)
        ensures
            granted == self.shared_access(thread),
    {
        proof {
            self.borrow_state.lemma_view_range();
        }
        if !self.on_right_thread(thread) {
            Err(error::Borrow::WrongThread)
        } else if self.borrow_state.is_unused() {
            Ok(())
        } else if self.borrow_state.is_exclusive() || !self.is_sync || self.borrow_state.word
            >= EXCLUSIVE - 1 {
            Err(error::Borrow::Shared)
        } else {
            Ok(())
        }
    }

    /// What an exclusive borrow from `thread` gets.
    pub fn check_exclusive(&self, thread: ThreadId) -> (granted: Result<(), error::Borrow>)
        ensures
            granted == self.exclusive_access(thread),
    {
        if !self.on_right_thread(thread) {
            Err(error::Borrow::WrongThread)
        } else if self.borrow_state.is_unused() {
            Ok(())
        } else {
            Err(error::Borrow::Exclusive)
        }
    }

    /// Shared access to the value for `thread`, for as long as the
    /// reference lives. Denied as a registered shared borrow would be.
    pub fn try_borrow(&self, thread: ThreadId) -> (borrowed: Result<&T, error::Borrow>)
        ensures
            borrowed == (match self.shared_access(thread) {
                Ok(_) => Ok::<&T, error::Borrow>(&self.value()),
                Err(denied) => Err(denied),
            }),
    {
        match self.check_shared(thread) {
            Ok(_) => Ok(&self.inner),
            Err(denied) => Err(denied),
        }
    }

    /// Exclusive access to the value for `thread`, for as long as the
    /// reference lives. Denied as a registered exclusive borrow would be.
    pub fn try_borrow_mut(&mut self, thread: ThreadId) -> (borrowed: Result<&mut T, error::Borrow>)
        ensures
            old(self).exclusive_access(thread) matches Err(denied) ==> borrowed == Err::<
                &mut T,
                error::Borrow,
            >(denied) && *final(self) == *old(self),
            old(self).exclusive_access(thread) is Ok ==> borrowed is Ok,
            borrowed matches Ok(value) ==> {
                &&& *value == old(self).value()
                &&& final(self).value() == *final(value)
                &&& final(self).held() == old(self).held()
                &&& final(self).affinity() == old(self).affinity()
                &&& final(self).sync() == old(self).sync()
            },
    {
        match self.check_exclusive(thread) {
            Ok(_) => Ok(&mut self.inner),
            Err(denied) => Err(denied),
        }
    }

    /// Registers a shared borrower from `thread` that stays until
    /// [`AtomicRefCell::release`].
    pub fn acquire(&mut self, thread: ThreadId) -> (granted: Result<(), error::Borrow>)
        ensures
            granted == old(self).shared_access(thread),
            final(self).held() == (if granted is Ok {
                shared_borrow(old(self).held(), old(self).sync())->Ok_0
            } else {
                old(self).held()
            }),
            final(self).value() == old(self).value(),
            final(self).affinity() == old(self).affinity(),
            final(self).sync() == old(self).sync(),
    {
        if !self.on_right_thread(thread) {
            Err(error::Borrow::WrongThread)
        } else {
            self.borrow_state.try_borrow(self.is_sync)
        }
    }

    /// Registers the exclusive borrower from `thread`, who stays until
    /// [`AtomicRefCell::release_mut`].
    pub fn acquire_mut(&mut self, thread: ThreadId) -> (granted: Result<(), error::Borrow>)
        ensures
            granted == old(self).exclusive_access(thread),
            final(self).held() == (if granted is Ok {
                Borrowing::Exclusive
            } else {
                old(self).held()
            }),
            final(self).value() == old(self).value(),
            final(self).affinity() == old(self).affinity(),
            final(self).sync() == old(self).sync(),
    {
        if !self.on_right_thread(thread) {
            Err(error::Borrow::WrongThread)
        } else {
            self.borrow_state.try_borrow_mut()
        }
    }

    /// Lets one registered shared borrower go and says whether there was one.
    pub fn release(&mut self) -> (released: bool)
        ensures
            released == (old(self).held() is Shared),
            final(self).held() == shared_release(old(self).held()),
            final(self).value() == old(self).value(),
            final(self).affinity() == old(self).affinity(),
            final(self).sync() == old(self).sync(),
    {
        self.borrow_state.release()
    }

    /// Lets the registered exclusive borrower go and says whether there was one.
    pub fn release_mut(&mut self) -> (released: bool)
        ensures
            released == (old(self).held() is Exclusive),
            final(self).held() == exclusive_release(old(self).held()),
            final(self).value() == old(self).value(),
            final(self).affinity() == old(self).affinity(),
            final(self).sync() == old(self).sync(),
    {
        self.borrow_state.release_mut()
    }
}

} // verus!
