use vstd::prelude::*;

verus! {

/// How many difficulties the start menu offers.
pub const MENU_OPTION_COUNT: usize = 3;

/// The field that each difficulty starts: (rows, cols, nr_mines), hardest first.
pub open spec fn menu_option_spec(i: int) -> (u16, u16, usize) {
    if i == 0 {
        (16, 30, 99)
    } else if i == 1 {
        (16, 16, 40)
    } else {
        (8, 8, 10)
    }
}

/// The selection after moving up from `i`: the previous one, from the first the last.
pub open spec fn selection_up(i: int) -> int {
    if i == 0 {
        MENU_OPTION_COUNT - 1
    } else {
        i - 1
    }
}

/// The selection after moving down from `i`: the next one, from the last the first.
pub open spec fn selection_down(i: int) -> int {
    if i == MENU_OPTION_COUNT - 1 {
        0
    } else {
        i + 1
    }
}

/// Moving up and then down, or down and then up, comes back to the same
/// difficulty, and every move stays on the menu.
pub proof fn lemma_moves_undo(i: int)
    requires
        0 <= i < MENU_OPTION_COUNT,
    ensures
        selection_down(selection_up(i)) == i,
        selection_up(selection_down(i)) == i,
        0 <= selection_up(i) < MENU_OPTION_COUNT,
        0 <= selection_down(i) < MENU_OPTION_COUNT,
{
}

/// The difficulty at position `i` of the menu: (rows, cols, nr_mines).
pub fn menu_option(i: usize) -> (option: (u16, u16, usize))
    requires
        i < MENU_OPTION_COUNT,
    ensures
        option == menu_option_spec(i as int),
{
    if i == 0 {
        (16, 30, 99)
    } else if i == 1 {
        (16, 16, 40)
    } else {
        (8, 8, 10)
    }
}

/// What a key press asks of the start menu.
#[derive(Debug, Clone, Copy, PartialEq, Eq, Structural)]
pub enum MenuAction {
    MoveUp,
    MoveDown,
    MoveLeft,
    MoveRight,
    Confirm,
    Quit,
}

/// The player left the start menu without choosing.
#[derive(Debug, Clone, Copy, PartialEq, Eq, Structural)]
pub struct UserQuit;

impl UserQuit {
    /// The text that tells the player why the game did not start.
    pub fn message(&self) -> (text: String)
        ensures
            text@ == seq!['U', 's', 'e', 'r', ' ', 'q', 'u', 'i', 't', '.'],
    {
        let chars = ['U', 's', 'e', 'r', ' ', 'q', 'u', 'i', 't', '.'];
        let mut text = String::new();
        crate::render::push_chars(&mut text, chars.as_slice());
        assert(chars@ =~= seq!['U', 's', 'e', 'r', ' ', 'q', 'u', 'i', 't', '.']);
        text
    }
}

/// The start menu: where its output goes and which difficulty is selected.
pub struct StartMenu<W> {
    w: W,
    current_selection: usize,
}

impl<W> StartMenu<W> {
    /// The selected position of the menu.
    pub closed spec fn selection(&self) -> int {
        self.current_selection as int
    }

    /// The selected position is never negative.
    pub proof fn lemma_selection_nonnegative(&self)
        ensures
            0 <= self.selection(),
    {
    }

    /// Where the menu draws itself.
    pub closed spec fn output(&self) -> W {
        self.w
    }

    pub fn new(w: W) -> (menu: Self)
        ensures
            menu.selection() == 0,
            menu.output() == w,
    {
        Self { w, current_selection: 0 }
    }

    /// The selected position of the menu.
    pub fn current_selection(&self) -> (i: usize)
        ensures
            i == self.selection(),
    {
        self.current_selection
    }

    /// Where the menu draws itself, to draw on it.
    pub fn output_mut(&mut self) -> (w: &mut W)
        ensures
            *w == old(self).output(),
            final(self).output() == *final(w),
            final(self).selection() == old(self).selection(),
    {
        &mut self.w
    }

    /// Select the previous difficulty, from the first one the last.
    pub fn move_up(&mut self)
        requires
            old(self).selection() < MENU_OPTION_COUNT,
        ensures
            final(self).selection() == selection_up(old(self).selection()),
            final(self).output() == old(self).output(),
    {
        if self.current_selection == 0 {
            self.current_selection = MENU_OPTION_COUNT - 1;
        } else {
            self.current_selection = self.current_selection - 1;
        }
    }

    /// Select the next difficulty, from the last one the first.
    pub fn move_down(&mut self)
        requires
            old(self).selection() < MENU_OPTION_COUNT,
        ensures
            final(self).selection() == selection_down(old(self).selection()),
            final(self).output() == old(self).output(),
    {
        if self.current_selection == MENU_OPTION_COUNT - 1 {
            self.current_selection = 0;
        } else {
            self.current_selection = self.current_selection + 1;
        }
    }

    /// The difficulty that is selected: (rows, cols, nr_mines).
    pub fn selected_option(&self) -> (option: (u16, u16, usize))
        requires
            self.selection() < MENU_OPTION_COUNT,
        ensures
            option == menu_option_spec(self.selection()),
    {
        menu_option(self.current_selection)
    }

    /// React to a key press: `Ok(Some(..))` with the selected difficulty on
    /// `Confirm`, `Err(UserQuit)` on `Quit`, and `Ok(None)` otherwise, after
    /// moving the selection on `MoveUp` and `MoveDown`.
    pub fn handle_input(&mut self, action: MenuAction) -> (res: Result<Option<(u16, u16, usize)>, UserQuit>)
        requires
            old(self).selection() < MENU_OPTION_COUNT,
        ensures
            final(self).selection() < MENU_OPTION_COUNT,
            final(self).output() == old(self).output(),
            final(self).selection() == match action {
                MenuAction::MoveUp => selection_up(old(self).selection()),
                MenuAction::MoveDown => selection_down(old(self).selection()),
                _ => old(self).selection(),
            },
            res == match action {
                MenuAction::Confirm => Ok(Some(menu_option_spec(old(self).selection()))),
                MenuAction::Quit => Err(UserQuit),
                _ => Ok(None),
            },
    {
        match action {
            MenuAction::Confirm => Ok(Some(self.selected_option())),
            MenuAction::Quit => Err(UserQuit),
            MenuAction::MoveUp => {
                self.move_up();
                Ok(None)
            },
            MenuAction::MoveDown => {
                self.move_down();
                Ok(None)
            },
            _ => Ok(None),
        }
    }

    /// Through any run of the menu's moves and key presses, each of which keeps
    /// where the menu draws itself, that output stays the one the menu started
    /// with, and `take_stdout` gives it back.
    pub proof fn lemma_output_kept(menus: Seq<Self>)
        requires
            menus.len() > 0,
            forall|i: int| 0 <= i < menus.len() - 1 ==> (#[trigger] menus[i + 1]).output() == menus[i].output(),
        ensures
            menus[menus.len() - 1].output() == menus[0].output(),
        decreases menus.len(),
    {
        if menus.len() > 1 {
            let shorter = menus.drop_last();
            assert forall|i: int| 0 <= i < shorter.len() - 1 implies (#[trigger] shorter[i + 1]).output() == shorter[i].output() by {
                assert(shorter[i + 1] == menus[i + 1]);
                assert(shorter[i] == menus[i]);
            }
            Self::lemma_output_kept(shorter);
            let i = menus.len() - 2;
            assert(menus[i + 1].output() == menus[i].output());
        }
    }

    /// Give back where the menu drew itself.
    pub fn take_stdout(self) -> (w: W)
        ensures
            w == self.output(),
    {
        self.w
    }
}

} // verus!
