//! Per-side action histories: each player owns an ordered, append-only
//! log of the actions it has submitted.

use vstd::prelude::*;
use crate::tilemap::Coord;

verus! {

/// Marker capability shared by the two action shapes. The shapes have
/// no common fields; the trait only lets them stand in the same
/// generic position.
pub trait Action {}

/// A single round action taken by the resistance player: the openly
/// claimed cell and a second, undisclosed cell carried along for a
/// future decoy mechanic (stored and compared, never consumed by the
/// capture rule).
#[derive(Clone, Copy, Debug, PartialEq, Eq)]
pub struct ResistanceAction {
    pub public_coord: Coord,
    pub private_coord: Coord,
}

impl Action for ResistanceAction {

}

/// A single round action taken by the suppressing player: the cells it
/// covers this round. Membership is what matters; the order is
/// incidental.
#[derive(Clone, Debug, PartialEq, Eq)]
pub struct SuppressionAction {
    pub suppression_zone: Vec<Coord>,
}

impl Action for SuppressionAction {

}

/// The history contract shared by the two player types: an append-only
/// action log with read and undo access to its most recent entry.
pub trait Actor<ActionType: Action> {
    /// The history of submitted actions, oldest first.
    spec fn queue(&self) -> Seq<ActionType>;

    /// Appends `action` to the history. No validation happens at this
    /// layer; legality is the round engine's concern.
    fn take_action(&mut self, action: ActionType)
        ensures
            final(self).queue() == old(self).queue().push(action),
    ;

    /// The most recently appended action, or none if the history is
    /// empty.
    fn last_action(&self) -> (r: Option<&ActionType>)
        ensures
            match r {
                Some(a) => self.queue().len() > 0 && *a == self.queue().last(),
                None => self.queue().len() == 0,
            },
    ;

    /// Discards the most recently appended action, then reveals the
    /// action now at the top, or none if the history became (or was)
    /// empty.
    fn undo_action(&mut self) -> (r: Option<&ActionType>)
        ensures
            final(self).queue() == if old(self).queue().len() == 0 {
                old(self).queue()
            } else {
                old(self).queue().drop_last()
            },
            match r {
                Some(a) => final(self).queue().len() > 0 && *a == final(self).queue().last(),
                None => final(self).queue().len() == 0,
            },
    ;

    /// Read access to the whole history.
    fn action_queue(&self) -> (r: &Vec<ActionType>)
        ensures
            r@ == self.queue(),
    ;

    /// Write access to the whole history.
    fn writable_action_queue(&mut self) -> (r: &mut Vec<ActionType>)
        ensures
            (*r)@ == old(self).queue(),
            final(self).queue() == final(r)@,
    ;
}

/// The resistance player's action history.
#[derive(Debug)]
pub struct ResistanceActor {
    pub action_queue: Vec<ResistanceAction>,
}

impl ResistanceActor {
    /// An actor with an empty action history.
    pub fn new() -> (r: ResistanceActor)
        ensures
            r.action_queue@ == Seq::<ResistanceAction>::empty(),
    {
        Self { action_queue: Vec::new() }
    }
}

impl Actor<ResistanceAction> for ResistanceActor {
    open spec fn queue(&self) -> Seq<ResistanceAction> {
        self.action_queue@
    }

    fn take_action(&mut self, action: ResistanceAction) {
        self.action_queue.push(action);
    }

    fn last_action(&self) -> (r: Option<&ResistanceAction>) {
        if self.action_queue.len() == 0 {
            None
        } else {
            Some(&self.action_queue[self.action_queue.len() - 1])
        }
    }

    fn undo_action(&mut self) -> (r: Option<&ResistanceAction>) {
        self.action_queue.pop();
        if self.action_queue.len() == 0 {
            None
        } else {
            Some(&self.action_queue[self.action_queue.len() - 1])
        }
    }

    fn action_queue(&self) -> (r: &Vec<ResistanceAction>) {
        &self.action_queue
    }

    fn writable_action_queue(&mut self) -> (r: &mut Vec<ResistanceAction>) {
        &mut self.action_queue
    }
}

/// The suppressing player's action history.
pub struct SuppressionActor {
    pub action_queue: Vec<SuppressionAction>,
}

impl SuppressionActor {
    /// An actor with an empty action history.
    pub fn new() -> (r: Self)
        ensures
            r.action_queue@ == Seq::<SuppressionAction>::empty(),
    {
        Self { action_queue: Vec::new() }
    }
}

impl Actor<SuppressionAction> for SuppressionActor {
    open spec fn queue(&self) -> Seq<SuppressionAction> {
        self.action_queue@
    }

    fn take_action(&mut self, action: SuppressionAction) {
        self.action_queue.push(action);
    }

    fn last_action(&self) -> (r: Option<&SuppressionAction>) {
        if self.action_queue.len() == 0 {
            None
        } else {
            Some(&self.action_queue[self.action_queue.len() - 1])
        }
    }

    fn undo_action(&mut self) -> (r: Option<&SuppressionAction>) {
        self.action_queue.pop();
        if self.action_queue.len() == 0 {
            None
        } else {
            Some(&self.action_queue[self.action_queue.len() - 1])
        }
    }

    fn action_queue(&self) -> (r: &Vec<SuppressionAction>) {
        &self.action_queue
    }

    fn writable_action_queue(&mut self) -> (r: &mut Vec<SuppressionAction>) {
        &mut self.action_queue
    }
}

} // verus!
