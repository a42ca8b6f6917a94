//! The records the service keeps, and their mathematical views.

use vstd::prelude::*;

verus! {

/// What a task is, as a mathematical value.
pub struct TaskView {
    pub id: u64,
    pub name: Seq<char>,
    pub completed: bool,
}

/// A unit of work, identified by a caller-supplied number.
#[derive(Debug, PartialEq, Eq)]
pub struct Task {
    pub id: u64,
    pub name: String,
    pub completed: bool,
}

impl View for Task {
    type V = TaskView;

    open spec fn view(&self) -> TaskView {
        TaskView { id: self.id, name: self.name@, completed: self.completed }
    }
}

impl Clone for Task {
    fn clone(&self) -> (copy: Self)
        ensures
            copy == *self,
    {
        Task { id: self.id, name: self.name.clone(), completed: self.completed }
    }
}

/// What a user account is, as a mathematical value.
pub struct UserView {
    pub id: u64,
    pub username: Seq<char>,
    pub password: Seq<char>,
}

/// An account record. Nothing the service exposes creates or reads one, but
/// every snapshot carries the accounts it was given.
#[derive(Debug, PartialEq, Eq)]
pub struct User {
    pub id: u64,
    pub username: String,
    pub password: String,
}

impl View for User {
    type V = UserView;

    open spec fn view(&self) -> UserView {
        UserView { id: self.id, username: self.username@, password: self.password@ }
    }
}

impl Clone for User {
    fn clone(&self) -> (copy: Self)
        ensures
            copy == *self,
    {
        User { id: self.id, username: self.username.clone(), password: self.password.clone() }
    }
}

} // verus!
