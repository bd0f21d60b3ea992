//! What becomes of the windows, and of the open books with them.
use vstd::prelude::*;

verus! {

/// A window of the reader.
#[derive(Debug, Clone, Copy, PartialEq, Eq, Structural)]
pub enum Window {
    /// The shelf.
    Main,
    /// The book that is read.
    Reader,
    /// Any other.
    Other,
}

/// A window that is to be closed is hidden: the shelf while a book is read, and either where
/// closing means going to the tray. The book is closed while the shelf is seen.
pub open spec fn hides(
    window: Window,
    reader_open: bool,
    to_tray: bool,
    main_visible: bool,
) -> bool {
    match window {
        Window::Main => reader_open || to_tray,
        Window::Reader => to_tray && !main_visible,
        Window::Other => false,
    }
}

/// Whether a window that is to be closed is hidden instead.
pub fn hides_on_close(window: Window, reader_open: bool, to_tray: bool, main_visible: bool) -> (r:
    bool)
    ensures
        r == hides(window, reader_open, to_tray, main_visible),
{
    match window {
        Window::Main => reader_open || to_tray,
        Window::Reader => to_tray && !main_visible,
        Window::Other => false,
    }
}

/// What follows when a window is gone.
#[derive(Debug, Clone, Copy, PartialEq, Eq, Structural)]
pub struct Aftermath {
    /// The books are closed.
    pub close_books: bool,
    /// The shelf is shown.
    pub show_main: bool,
    /// The program ends.
    pub exit: bool,
}

/// What follows when a window is gone. `main_visible` is none where the shelf is gone, too.
pub open spec fn aftermath(
    window: Window,
    main_visible: Option<bool>,
    reader_open: bool,
) -> Aftermath {
    match window {
        Window::Reader => Aftermath {
            close_books: true,
            show_main: main_visible == Some(false),
            exit: main_visible is None,
        },
        Window::Main => Aftermath {
            close_books: !reader_open,
            show_main: false,
            exit: !reader_open,
        },
        Window::Other => Aftermath { close_books: false, show_main: false, exit: false },
    }
}

/// What follows when a window is gone.
pub fn after_destroyed(window: Window, main_visible: Option<bool>, reader_open: bool) -> (r:
    Aftermath)
    ensures
        r == aftermath(window, main_visible, reader_open),
{
    match window {
        Window::Reader => {
            let (show_main, exit) = match main_visible {
                Some(v) => (!v, false),
                None => (false, true),
            };
            Aftermath { close_books: true, show_main, exit }
        },
        Window::Main => Aftermath {
            close_books: !reader_open,
            show_main: false,
            exit: !reader_open,
        },
        Window::Other => Aftermath { close_books: false, show_main: false, exit: false },
    }
}

/// The window that comes to the front: the book where one is read, else the shelf.
pub fn window_to_show(reader_open: bool, main_open: bool) -> (r: Option<Window>)
    ensures
        r == if reader_open {
            Some(Window::Reader)
        } else if main_open {
            Some(Window::Main)
        } else {
            None
        },
{
    if reader_open {
        Some(Window::Reader)
    } else if main_open {
        Some(Window::Main)
    } else {
        None
    }
}

/// The program ends only with its books closed, and never leaves a shelf behind that nobody sees:
/// when the book's window is gone, the shelf is seen, or it is shown, or the program ends.
pub proof fn no_window_is_lost(window: Window, main_visible: Option<bool>, reader_open: bool)
    ensures
        aftermath(window, main_visible, reader_open).exit ==> aftermath(
            window,
            main_visible,
            reader_open,
        ).close_books,
        window == Window::Reader ==> main_visible == Some(true) || aftermath(
            window,
            main_visible,
            reader_open,
        ).show_main || aftermath(window, main_visible, reader_open).exit,
{
}


/// A book that is read keeps the shelf from being closed, and where closing means going to the tray the last
/// window that is seen stays, hidden; a window that is closed beside another that is seen is gone.
pub proof fn what_is_needed_stays(to_tray: bool, seen: bool, reader_open: bool)
    ensures
        hides(Window::Main, true, to_tray, seen),
        hides(Window::Main, reader_open, true, seen),
        !hides(Window::Main, false, false, seen),
        hides(Window::Reader, reader_open, true, false),
        !hides(Window::Reader, reader_open, to_tray, true),
        !hides(Window::Reader, reader_open, false, seen),
        !hides(Window::Other, reader_open, to_tray, seen),
{
}

/// When the book's window is gone its books are closed and the shelf is seen again; when the shelf is gone
/// the program goes on only while a book is read; other windows leave nothing behind.
pub proof fn what_follows_a_closed_window(main_visible: Option<bool>, reader_open: bool)
    ensures
        aftermath(Window::Reader, main_visible, reader_open).close_books,
        aftermath(Window::Reader, Some(false), reader_open).show_main,
        !aftermath(Window::Reader, Some(true), reader_open).show_main,
        aftermath(Window::Reader, None, reader_open).exit,
        !aftermath(Window::Reader, Some(false), reader_open).exit,
        !aftermath(Window::Reader, Some(true), reader_open).exit,
        aftermath(Window::Main, main_visible, false).exit,
        !aftermath(Window::Main, main_visible, true).exit,
        !aftermath(Window::Main, main_visible, true).close_books,
        !aftermath(Window::Other, main_visible, reader_open).exit,
        !aftermath(Window::Other, main_visible, reader_open).close_books,
{
}

} // verus!
