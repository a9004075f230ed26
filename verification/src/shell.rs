//! The client's window, its tray icon, and when it exits.
//!
//! Closing the window only hides it, so that syncing goes on; the client exits
//! when the user chooses to quit from the tray menu.

use crate::text::same_text;
use vstd::prelude::*;

verus! {

/// Something that happens to the window, the tray icon or the application.
#[derive(Debug, PartialEq, Eq)]
pub enum ShellEvent {
    /// An item of the tray menu was chosen.
    Menu(String),
    /// The tray icon was clicked: with the left button or another one, and
    /// either pressed or released.
    TrayClick { left: bool, released: bool },
    /// The window is asked to close.
    CloseRequested,
    /// The application is asked to exit.
    ExitRequested,
    /// The application was opened again while it is running.
    Reopened,
}

/// Model of a [`ShellEvent`].
pub enum UserEvent {
    Menu(Seq<char>),
    TrayClick { left: bool, released: bool },
    CloseRequested,
    ExitRequested,
    Reopened,
}

impl View for ShellEvent {
    type V = UserEvent;

    open spec fn view(&self) -> UserEvent {
        match self {
            ShellEvent::Menu(id) => UserEvent::Menu(id@),
            ShellEvent::TrayClick { left, released } => UserEvent::TrayClick {
                left: *left,
                released: *released,
            },
            ShellEvent::CloseRequested => UserEvent::CloseRequested,
            ShellEvent::ExitRequested => UserEvent::ExitRequested,
            ShellEvent::Reopened => UserEvent::Reopened,
        }
    }
}

/// How to answer such an event.
#[derive(Clone, Copy, Debug, PartialEq, Eq, Structural)]
pub enum ShellAction {
    /// Bring the window back and into focus.
    ShowWindow,
    /// Keep the window from closing and hide it.
    HideWindow,
    /// Exit the application.
    Exit,
    /// Let the application exit.
    AllowExit,
    /// Keep the application from exiting.
    PreventExit,
    Nothing,
}

/// Remembers whether the user chose to quit.
#[derive(Debug, PartialEq, Eq)]
pub struct Shell {
    quitting: bool,
}

impl View for Shell {
    type V = bool;

    closed spec fn view(&self) -> bool {
        self.quitting
    }
}

/// Whether the user chooses to quit.
pub open spec fn is_quit(event: UserEvent) -> bool {
    event == UserEvent::Menu("quit"@)
}

/// The answer to an event, given whether the user had chosen to quit before.
pub open spec fn shell_action(quitting: bool, event: UserEvent) -> ShellAction {
    match event {
        UserEvent::Menu(id) => if id == "show"@ {
            ShellAction::ShowWindow
        } else if id == "quit"@ {
            ShellAction::Exit
        } else {
            ShellAction::Nothing
        },
        UserEvent::TrayClick { left, released } => if left && released {
            ShellAction::ShowWindow
        } else {
            ShellAction::Nothing
        },
        UserEvent::CloseRequested => ShellAction::HideWindow,
        UserEvent::ExitRequested => if quitting {
            ShellAction::AllowExit
        } else {
            ShellAction::PreventExit
        },
        UserEvent::Reopened => ShellAction::ShowWindow,
    }
}

impl Shell {
    pub fn new() -> (shell: Shell)
        ensures
            !shell@,
    {
        Shell { quitting: false }
    }

    /// Decides how to answer an event.
    pub fn handle(&mut self, event: ShellEvent) -> (action: ShellAction)
        ensures
            final(self)@ == (old(self)@ || is_quit(event@)),
            final(self)@ == (old(self)@ || event@ == UserEvent::Menu("quit"@)),
            action == shell_action(old(self)@, event@),
    {
        proof {
            reveal_strlit("show");
            reveal_strlit("quit");
            assert("show"@[0] != "quit"@[0]);
        }
        match event {
            ShellEvent::Menu(id) => if same_text(id.as_str(), "show") {
                ShellAction::ShowWindow
            } else if same_text(id.as_str(), "quit") {
                self.quitting = true;
                ShellAction::Exit
            } else {
                ShellAction::Nothing
            },
            ShellEvent::TrayClick { left, released } => if left && released {
                ShellAction::ShowWindow
            } else {
                ShellAction::Nothing
            },
            ShellEvent::CloseRequested => ShellAction::HideWindow,
            ShellEvent::ExitRequested => if self.quitting {
                ShellAction::AllowExit
            } else {
                ShellAction::PreventExit
            },
            ShellEvent::Reopened => ShellAction::ShowWindow,
        }
    }
}

/// Whether the user has chosen to quit in one of a number of events.
pub open spec fn quitting_after(events: Seq<UserEvent>) -> bool
    decreases events.len(),
{
    events.len() > 0 && (quitting_after(events.drop_last()) || is_quit(events.last()))
}

/// The application exits if and only if the user chose to quit at some time
/// before; no other event, closing the window least of all, ends it.
pub proof fn law_exit_only_after_quit(events: Seq<UserEvent>)
    ensures
        shell_action(quitting_after(events), UserEvent::ExitRequested) == (if exists|i: int|
            0 <= i < events.len() && #[trigger] events[i] == UserEvent::Menu("quit"@) {
            ShellAction::AllowExit
        } else {
            ShellAction::PreventExit
        }),
    decreases events.len(),
{
    if events.len() > 0 {
        let earlier = events.drop_last();
        law_exit_only_after_quit(earlier);
        if exists|i: int| 0 <= i < earlier.len() && is_quit(#[trigger] earlier[i]) {
            let i = choose|i: int| 0 <= i < earlier.len() && is_quit(#[trigger] earlier[i]);
            assert(events[i] == earlier[i]);
        }
        if exists|i: int| 0 <= i < events.len() && is_quit(#[trigger] events[i]) {
            let i = choose|i: int| 0 <= i < events.len() && is_quit(#[trigger] events[i]);
            if i < earlier.len() {
                assert(earlier[i] == events[i]);
            }
        }
    }
}

/// Each answer is given to its own events and to no others: the window is shown
/// for the menu item `show`, for a left click on the tray icon as it is released
/// and when the client is opened again; it is hidden when it is asked to close;
/// the client exits by the menu item `quit`.
pub proof fn law_each_event_has_its_answer(quitting: bool, event: UserEvent)
    ensures
        shell_action(quitting, event) is ShowWindow <==> {
            ||| event == UserEvent::Menu("show"@)
            ||| event == (UserEvent::TrayClick { left: true, released: true })
            ||| event is Reopened
        },
        shell_action(quitting, event) is HideWindow <==> event is CloseRequested,
        shell_action(quitting, event) is Exit <==> event == UserEvent::Menu("quit"@),
        shell_action(quitting, event) is AllowExit <==> event is ExitRequested && quitting,
        shell_action(quitting, event) is PreventExit <==> event is ExitRequested && !quitting,
{
    reveal_strlit("show");
    reveal_strlit("quit");
    assert("show"@[0] != "quit"@[0]);
}

} // verus!
