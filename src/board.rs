use vstd::prelude::*;

use crate::text::{
    chars_eq, chars_of, contains_chars, has_infix, split_words, views, words, InputError,
};

verus! {

/// What each of a list of strings holds.
pub open spec fn string_views(v: Seq<String>) -> Seq<Seq<char>> {
    v.map_values(|s: String| s@)
}

/// A board row without its four-character coordinate label.
pub open spec fn strip_label(line: Seq<char>) -> Seq<char> {
    if line.len() >= 4 {
        line.skip(4)
    } else {
        Seq::empty()
    }
}

/// The board that a block of labelled rows describes.
pub open spec fn board_of(lines: Seq<Seq<char>>) -> Seq<Seq<char>> {
    lines.map_values(|l: Seq<char>| strip_label(l))
}

/// Every row has the length of the first.
pub open spec fn rectangular(g: Seq<Seq<char>>) -> bool {
    forall|i: int| 0 <= i < g.len() ==> (#[trigger] g[i]).len() == g[0].len()
}

/// The opponent's two cell markers, from the player's identity token and the
/// command line that announced it; two blanks when the token is unknown.
pub open spec fn enemy_pair(id: Seq<char>, command: Seq<char>) -> (char, char) {
    let named = has_infix(command, "solution"@);
    if id == "p1"@ {
        if named {
            ('s', '$')
        } else {
            ('a', '@')
        }
    } else if id == "p2"@ {
        if named {
            ('a', '@')
        } else {
            ('s', '$')
        }
    } else {
        (' ', ' ')
    }
}

/// The state kept from turn to turn: the board, the current piece, and who
/// the player is.
pub struct Game {
    pub grid: Vec<Vec<char>>,
    pub piece: Vec<Vec<char>>,
    pub player_id: Vec<char>,
    pub player_command: Vec<char>,
}

impl Game {
    pub open spec fn grid_model(&self) -> Seq<Seq<char>> {
        views(self.grid@)
    }

    pub open spec fn piece_model(&self) -> Seq<Seq<char>> {
        views(self.piece@)
    }

    /// The board is a rectangle.
    pub open spec fn wf(&self) -> bool {
        rectangular(self.grid_model())
    }

    /// A game that has seen no message yet.
    pub fn new() -> (r: Game)
        ensures
            r.grid@.len() == 0,
            r.piece@.len() == 0,
            r.player_id@.len() == 0,
            r.player_command@.len() == 0,
            r.wf(),
    {
        Game { grid: Vec::new(), piece: Vec::new(), player_id: Vec::new(), player_command: Vec::new() }
    }

    /// Takes in a player-info line: its third word is the identity token and
    /// the whole line is kept as the command.
    pub fn update_player_info(&mut self, line: &str) -> (r: Result<(), InputError>)
        ensures
            final(self).grid == old(self).grid,
            final(self).piece == old(self).piece,
            split_words(line@).len() >= 3 ==> r is Ok && final(self).player_id@ == split_words(line@)[2]
                && final(self).player_command@ == line@,
            split_words(line@).len() < 3 ==> r == Err::<(), InputError>(InputError::MissingPlayerId)
                && final(self).player_id == old(self).player_id
                && final(self).player_command == old(self).player_command,
    {
        let cs = chars_of(line);
        let mut ws = words(&cs);
        if ws.len() < 3 {
            return Err(InputError::MissingPlayerId);
        }
        let ghost third = views(ws@)[2];
        let id = ws.remove(2);
        assert(id@ == third);
        self.player_id = id;
        self.player_command = cs;
        Ok(())
    }

    /// Replaces the board with the given block of labelled rows.
    pub fn parse_grid(&mut self, rows: &Vec<String>) -> (r: Result<(), InputError>)
        ensures
            final(self).piece == old(self).piece,
            final(self).player_id == old(self).player_id,
            final(self).player_command == old(self).player_command,
            rectangular(board_of(string_views(rows@))) ==> r is Ok && final(self).grid_model()
                == board_of(string_views(rows@)),
            !rectangular(board_of(string_views(rows@))) ==> r == Err::<(), InputError>(
                InputError::RaggedGrid,
            ) && final(self).grid == old(self).grid,
            old(self).wf() ==> final(self).wf(),
    {
        let ghost lines = string_views(rows@);
        let mut g: Vec<Vec<char>> = Vec::new();
        let mut i: usize = 0;
        while i < rows.len()
            invariant
                i <= rows@.len(),
                lines == string_views(rows@),
                views(g@) =~= board_of(lines).take(i as int),
            decreases rows@.len() - i,
        {
            let cs = chars_of(rows[i].as_str());
            assert(cs@ == lines[i as int]);
            let start: usize = if cs.len() >= 4 {
                4
            } else {
                cs.len()
            };
            let mut row: Vec<char> = Vec::new();
            let mut j: usize = start;
            while j < cs.len()
                invariant
                    start <= j <= cs@.len(),
                    row@ =~= cs@.subrange(start as int, j as int),
                decreases cs@.len() - j,
            {
                row.push(cs[j]);
                j = j + 1;
            }
            assert(row@ =~= strip_label(lines[i as int]));
            let ghost before = views(g@);
            let ghost added = row@;
            g.push(row);
            assert(views(g@) =~= before.push(added));
            i = i + 1;
        }
        assert(board_of(lines).take(i as int) =~= board_of(lines));
        let mut k: usize = 0;
        while k < g.len()
            invariant
                k <= g@.len(),
                views(g@) == board_of(string_views(rows@)),
                forall|m: int| 0 <= m < k ==> (#[trigger] g@[m])@.len() == g@[0]@.len(),
            decreases g@.len() - k,
        {
            if g[k].len() != g[0].len() {
                assert(views(g@)[k as int].len() != views(g@)[0].len());
                return Err(InputError::RaggedGrid);
            }
            k = k + 1;
        }
        assert(rectangular(views(g@)));
        self.grid = g;
        Ok(())
    }

    /// Replaces the piece with the given block of rows, taken as they are.
    pub fn parse_piece(&mut self, rows: &Vec<String>)
        ensures
            final(self).piece_model() == string_views(rows@),
            final(self).grid == old(self).grid,
            final(self).player_id == old(self).player_id,
            final(self).player_command == old(self).player_command,
    {
        let mut p: Vec<Vec<char>> = Vec::new();
        let mut i: usize = 0;
        while i < rows.len()
            invariant
                i <= rows@.len(),
                views(p@) =~= string_views(rows@).take(i as int),
            decreases rows@.len() - i,
        {
            let row = chars_of(rows[i].as_str());
            let ghost before = views(p@);
            let ghost added = row@;
            p.push(row);
            assert(views(p@) =~= before.push(added));
            i = i + 1;
        }
        assert(string_views(rows@).take(i as int) =~= string_views(rows@));
        self.piece = p;
    }

    /// The board cell in row `x`, column `y`.
    pub fn cell(&self, x: usize, y: usize) -> (r: char)
        requires
            x < self.grid@.len(),
            y < self.grid@[x as int]@.len(),
        ensures
            r == self.grid_model()[x as int][y as int],
    {
        self.grid[x][y]
    }

    /// The height and width of the board, then of the piece; a width is the
    /// length of the first row, or 0 when there is no row.
    pub fn dimensions(&self) -> (r: ((usize, usize), (usize, usize)))
        ensures
            r.0.0 == self.grid@.len(),
            r.0.1 == if self.grid@.len() > 0 {
                self.grid_model()[0].len()
            } else {
                0
            },
            r.1.0 == self.piece@.len(),
            r.1.1 == if self.piece@.len() > 0 {
                self.piece_model()[0].len()
            } else {
                0
            },
    {
        let gw = if self.grid.len() > 0 {
            self.grid[0].len()
        } else {
            0
        };
        let pw = if self.piece.len() > 0 {
            self.piece[0].len()
        } else {
            0
        };
        ((self.grid.len(), gw), (self.piece.len(), pw))
    }

    /// The opponent's two cell markers.
    pub fn get_enemy_chars(&self) -> (r: (char, char))
        ensures
            r == enemy_pair(self.player_id@, self.player_command@),
    {
        let named = contains_chars(&self.player_command, &chars_of("solution"));
        if chars_eq(&self.player_id, "p1") {
            if named {
                ('s', '$')
            } else {
                ('a', '@')
            }
        } else if chars_eq(&self.player_id, "p2") {
            if named {
                ('a', '@')
            } else {
                ('s', '$')
            }
        } else {
            (' ', ' ')
        }
    }
}

} // verus!
