//! The size of a new board: what may be asked for, and what comes of it.

use vstd::prelude::*;

verus! {

/// The smallest width and height.
pub const MIN_SIDE: usize = 3;

/// The largest width and height in a window, a terminal or on a served page.
pub const MAX_SIDE: usize = 50;

/// The largest width and height on a page of its own. Not a limit of the engine: every
/// cell becomes a node of the page, and a board of this size is slow to lay out already.
pub const MAX_PAGE_SIDE: usize = 200;

/// Width, height and number of mines of a board.
#[derive(Debug, Clone, Copy, PartialEq, Eq, Structural)]
pub struct Settings {
    pub width: usize,
    pub height: usize,
    pub mines: usize,
}

/// The number nearest to `n` between two bounds.
pub open spec fn between(n: int, low: int, high: int) -> int {
    if n < low {
        low
    } else if n > high {
        high
    } else {
        n
    }
}

/// The number nearest to `n` between two bounds.
fn clamped(n: usize, low: usize, high: usize) -> (near: usize)
    requires
        low <= high,
    ensures
        near == between(n as int, low as int, high as int),
{
    if n < low {
        low
    } else if n > high {
        high
    } else {
        n
    }
}

impl Settings {
    /// A board that can be played: of some size, with at least one mine and at least one
    /// cell without.
    pub open spec fn playable(self, largest: int) -> bool {
        &&& 3 <= self.width <= largest
        &&& 3 <= self.height <= largest
        &&& 1 <= self.mines <= self.width * self.height - 1
    }

    /// The nearest size that can be played.
    pub open spec fn nearest(width: int, height: int, mines: int, largest: int) -> Settings {
        let w = between(width, 3, largest);
        let h = between(height, 3, largest);
        Settings {
            width: w as usize,
            height: h as usize,
            mines: between(mines, 1, w * h - 1) as usize,
        }
    }

    /// Takes what was asked for as near as it can be played.
    pub fn new(width: usize, height: usize, mines: usize, largest: usize) -> (settings: Self)
        requires
            3 <= largest <= 0xffff,
        ensures
            settings == Self::nearest(
                width as int,
                height as int,
                mines as int,
                largest as int,
            ),
            settings.playable(largest as int),
    {
        let w: usize = clamped(width, MIN_SIDE, largest);
        let h: usize = clamped(height, MIN_SIDE, largest);
        assert(9 <= w * h <= 0xffff * 0xffff) by (nonlinear_arith)
            requires
                3 <= w <= 0xffff,
                3 <= h <= 0xffff,
        ;
        Self { width: w, height: h, mines: clamped(mines, 1, w * h - 1) }
    }

    /// Takes what was asked for from spin boxes. What is below zero counts as far too
    /// large.
    pub fn from_signed(width: i32, height: i32, mines: i32) -> (settings: Self)
        ensures
            settings == Self::nearest(
                if width < 0 {
                    50
                } else {
                    width as int
                },
                if height < 0 {
                    50
                } else {
                    height as int
                },
                if mines < 0 {
                    2500
                } else {
                    mines as int
                },
                50,
            ),
            settings.playable(50),
    {
        let w: usize = if width < 0 {
            MAX_SIDE
        } else {
            width as usize
        };
        let h: usize = if height < 0 {
            MAX_SIDE
        } else {
            height as usize
        };
        let m: usize = if mines < 0 {
            2500
        } else {
            mines as usize
        };
        Self::new(w, h, m, MAX_SIDE)
    }

    /// Takes what was asked for, and the current settings for what was not.
    pub fn changed(
        &self,
        width: Option<usize>,
        height: Option<usize>,
        mines: Option<usize>,
    ) -> (settings: Self)
        ensures
            settings == Self::nearest(
                match width {
                    Some(w) => w as int,
                    None => self.width as int,
                },
                match height {
                    Some(h) => h as int,
                    None => self.height as int,
                },
                match mines {
                    Some(m) => m as int,
                    None => self.mines as int,
                },
                50,
            ),
            settings.playable(50),
    {
        let w: usize = match width {
            Some(w) => w,
            None => self.width,
        };
        let h: usize = match height {
            Some(h) => h,
            None => self.height,
        };
        let m: usize = match mines {
            Some(m) => m,
            None => self.mines,
        };
        Self::new(w, h, m, MAX_SIDE)
    }

    /// The settings to start with.
    pub fn initial() -> (settings: Self)
        ensures
            settings == (Settings { width: 10, height: 10, mines: 10 }),
            settings.playable(50),
    {
        Self { width: 10, height: 10, mines: 10 }
    }
}

/// What can be played is taken as it is: asking for it again changes nothing.
pub proof fn law_playable_settings_stay(settings: Settings, largest: int)
    requires
        settings.playable(largest),
    ensures
        Settings::nearest(
            settings.width as int,
            settings.height as int,
            settings.mines as int,
            largest,
        ) == settings,
{
}

/// What is taken is in range, and nothing in range is nearer to what was asked for.
pub proof fn law_settings_are_the_nearest(
    width: int,
    height: int,
    mines: int,
    largest: int,
    other: Settings,
)
    requires
        3 <= largest <= 0xffff,
        other.playable(largest),
    ensures
        ({
            let taken = Settings::nearest(width, height, mines, largest);
            &&& taken.playable(largest)
            &&& distance(taken.width as int, width) <= distance(other.width as int, width)
            &&& distance(taken.height as int, height) <= distance(other.height as int, height)
            &&& other.width == taken.width && other.height == taken.height ==> distance(
                taken.mines as int,
                mines,
            ) <= distance(other.mines as int, mines)
        }),
{
    let w = between(width, 3, largest);
    let h = between(height, 3, largest);
    assert(9 <= w * h <= 0xffff * 0xffff) by (nonlinear_arith)
        requires
            3 <= w <= 0xffff,
            3 <= h <= 0xffff,
    ;
}

/// How far two numbers are apart.
pub open spec fn distance(a: int, b: int) -> int {
    if a < b {
        b - a
    } else {
        a - b
    }
}

} // verus!
