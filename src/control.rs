use vstd::prelude::*;

verus! {

/// What a renderer draws: everything, only the walls, or only the tree.
#[derive(Debug, Clone, Copy, PartialEq, Eq)]
pub enum DrawTypes {
    ALL,
    WALLS,
    PATHS,
}

/// The draw modes in the order that the arrow keys step through.
pub open spec fn mode_at(i: int) -> DrawTypes {
    if i == 0 {
        DrawTypes::ALL
    } else if i == 1 {
        DrawTypes::WALLS
    } else {
        DrawTypes::PATHS
    }
}

/// The keys the controller reacts to; anything else is `Other`.
#[derive(Debug, Clone, Copy, PartialEq, Eq)]
pub enum KeyPress {
    Escape,
    Space,
    S,
    T,
    C,
    R,
    Up,
    Down,
    Other,
}

/// What the surrounding loop does next for a key.
#[derive(Debug, Clone, Copy, PartialEq, Eq)]
pub enum Command {
    /// Leave the loop.
    Quit,
    /// Build a random tree, then draw.
    Generate,
    /// Build the comb template, then draw.
    Template,
    /// Clear the grid, then draw.
    Clear,
    /// Regrow once from a random cell, then draw.
    Reroot,
    /// Draw again (the draw mode changed).
    Redraw,
    /// Nothing to do.
    Nothing,
}

/// The decisions of the display loop: the draw mode, whether the tree
/// regrows on every tick, and the origin that the next regrowth starts from.
pub struct Controller {
    pub draw_mode: DrawTypes,
    pub draw_index: usize,
    pub auto_grow: bool,
    pub origin: (u32, u32),
}

impl Controller {
    pub open spec fn wf(self) -> bool {
        self.draw_index < 3
    }

    /// Walls only, auto-growth off, regrowth starting at `(0, 0)`.
    pub fn new() -> (r: Controller)
        ensures
            r.wf(),
            r.draw_mode == DrawTypes::WALLS,
            r.draw_index == 0,
            !r.auto_grow,
            r.origin == (0u32, 0u32),
    {
        Controller { draw_mode: DrawTypes::WALLS, draw_index: 0, auto_grow: false, origin: (0, 0) }
    }

    /// Reacts to a key: `S` toggles auto-growth, `Up` and `Down` step the draw
    /// mode forward and back through `ALL`, `WALLS`, `PATHS` (wrapping), and
    /// the other keys map to the command that the loop carries out.
    pub fn on_key(&mut self, key: KeyPress) -> (c: Command)
        requires
            old(self).wf(),
        ensures
            final(self).wf(),
            final(self).origin == old(self).origin,
            final(self).auto_grow == (if key == KeyPress::S {
                !old(self).auto_grow
            } else {
                old(self).auto_grow
            }),
            key == KeyPress::Up ==> final(self).draw_index == (old(self).draw_index + 1) % 3,
            key == KeyPress::Down ==> final(self).draw_index == (old(self).draw_index + 2) % 3,
            key == KeyPress::Up || key == KeyPress::Down ==> final(self).draw_mode == mode_at(
                final(self).draw_index as int,
            ),
            !(key == KeyPress::Up || key == KeyPress::Down) ==> final(self).draw_index == old(self).draw_index
                && final(self).draw_mode == old(self).draw_mode,
            c == match key {
                KeyPress::Escape => Command::Quit,
                KeyPress::Space => Command::Generate,
                KeyPress::T => Command::Template,
                KeyPress::C => Command::Clear,
                KeyPress::R => Command::Reroot,
                KeyPress::Up | KeyPress::Down => Command::Redraw,
                _ => Command::Nothing,
            },
    {
        match key {
            KeyPress::Escape => Command::Quit,
            KeyPress::Space => Command::Generate,
            KeyPress::S => {
                self.auto_grow = !self.auto_grow;
                Command::Nothing
            },
            KeyPress::T => Command::Template,
            KeyPress::C => Command::Clear,
            KeyPress::R => Command::Reroot,
            KeyPress::Up => {
                if self.draw_index == 2 {
                    self.draw_index = 0;
                } else {
                    self.draw_index = self.draw_index + 1;
                }
                self.draw_mode = Self::mode_of(self.draw_index);
                Command::Redraw
            },
            KeyPress::Down => {
                if self.draw_index == 0 {
                    self.draw_index = 2;
                } else {
                    self.draw_index = self.draw_index - 1;
                }
                self.draw_mode = Self::mode_of(self.draw_index);
                Command::Redraw
            },
            KeyPress::Other => Command::Nothing,
        }
    }

    fn mode_of(i: usize) -> (m: DrawTypes)
        ensures
            m == mode_at(i as int),
    {
        if i == 0 {
            DrawTypes::ALL
        } else if i == 1 {
            DrawTypes::WALLS
        } else {
            DrawTypes::PATHS
        }
    }

    /// The origin to regrow from on this tick, when auto-growth is on.
    pub fn tick(&self) -> (r: Option<(u32, u32)>)
        ensures
            r == (if self.auto_grow {
                Some(self.origin)
            } else {
                None::<(u32, u32)>
            }),
    {
        if self.auto_grow {
            Some(self.origin)
        } else {
            None
        }
    }

    /// Records where the last regrowth ended, as the next origin.
    pub fn grown(&mut self, next: (u32, u32))
        ensures
            final(self).origin == next,
            final(self).draw_mode == old(self).draw_mode,
            final(self).draw_index == old(self).draw_index,
            final(self).auto_grow == old(self).auto_grow,
    {
        self.origin = next;
    }
}

} // verus!
