//! The temple in the terminal: pick a face, walk, offer incense, leave by
//! the open bottom. Everyone inside shares one world and sees each other.

use std::collections::HashMap;
use vstd::prelude::*;

pub use crate::keys::{parse_keys, Key};
use crate::text::{decimal, push_decimal};
use vstd::std_specs::hash::spec_values_iter;
use vstd::std_specs::iter::IteratorSpec;

verus! {

broadcast use vstd::std_specs::hash::group_hash_axioms;

/// Number of faces a visitor can choose from.
pub const AVATAR_COUNT: usize = 15;

/// The faces to choose from. All are single code points: composed emoji
/// render at different widths in different terminals and bend the map.
pub open spec fn avatar_text(i: int) -> Seq<char> {
    if i == 0 {
        "👩"@
    } else if i == 1 {
        "👨"@
    } else if i == 2 {
        "🧑"@
    } else if i == 3 {
        "👴"@
    } else if i == 4 {
        "👵"@
    } else if i == 5 {
        "👸"@
    } else if i == 6 {
        "🤴"@
    } else if i == 7 {
        "🧙"@
    } else if i == 8 {
        "🧚"@
    } else if i == 9 {
        "🧝"@
    } else if i == 10 {
        "👳"@
    } else if i == 11 {
        "🧕"@
    } else if i == 12 {
        "💂"@
    } else if i == 13 {
        "👮"@
    } else {
        "👷"@
    }
}

/// The face with index `i`.
pub fn avatar(i: usize) -> (s: &'static str)
    requires
        i < AVATAR_COUNT,
    ensures
        s@ == avatar_text(i as int),
{
    match i {
        0 => "👩",
        1 => "👨",
        2 => "🧑",
        3 => "👴",
        4 => "👵",
        5 => "👸",
        6 => "🤴",
        7 => "🧙",
        8 => "🧚",
        9 => "🧝",
        10 => "👳",
        11 => "🧕",
        12 => "💂",
        13 => "👮",
        _ => "👷",
    }
}

// Every tile is exactly two columns wide, like the emoji faces.
/// Lantern, red (even columns).
pub const LANTERN_RED: &'static str = "\x1b[1;31m[]\x1b[0m";
/// Lantern, yellow (odd columns).
pub const LANTERN_YELLOW: &'static str = "\x1b[1;33m[]\x1b[0m";
/// The red temple wall.
pub const WALL: &'static str = "\x1b[31m##\x1b[0m";
/// The offering table in front of the shrine (256-colour brown).
pub const TABLE: &'static str = "\x1b[38;5;130m==\x1b[0m";
/// The incense sticks, unlit.
pub const CANDLE: &'static str = "\x1b[90m||\x1b[0m";
/// The incense sticks, burning while someone bows.
pub const FIRE: &'static str = "\x1b[1;33m||\x1b[0m";
/// Floor that can be walked on.
pub const FLOOR: &'static str = "\x1b[90m. \x1b[0m";
/// Empty space outside the temple.
pub const VOID: &'static str = "  ";

/// Width of the temple map.
pub const W: usize = 7;
/// Height of the temple map.
pub const H: usize = 7;

/// The floor plan: `'.'` can be walked on, everything else blocks.
///
/// ```text
///   LLL
/// LLLLLLL
/// WBBCBBW
/// W.....W
/// W.....W
/// W.....W
/// W.....W
/// ```
pub open spec fn map_tile(r: int, c: int) -> char {
    if r == 0 {
        if 2 <= c && c <= 4 {
            'L'
        } else {
            ' '
        }
    } else if r == 1 {
        'L'
    } else if r == 2 {
        if c == 0 || c == 6 {
            'W'
        } else if c == 3 {
            'C'
        } else {
            'B'
        }
    } else if c == 0 || c == 6 {
        'W'
    } else {
        '.'
    }
}

fn tile(r: usize, c: usize) -> (t: char)
    requires
        r < H,
        c < W,
    ensures
        t == map_tile(r as int, c as int),
{
    if r == 0 {
        if 2 <= c && c <= 4 {
            'L'
        } else {
            ' '
        }
    } else if r == 1 {
        'L'
    } else if r == 2 {
        if c == 0 || c == 6 {
            'W'
        } else if c == 3 {
            'C'
        } else {
            'B'
        }
    } else if c == 0 || c == 6 {
        'W'
    } else {
        '.'
    }
}

/// Where a visitor appears. The whole bottom is open: one more step down leaves.
pub open spec fn start_at() -> (usize, usize) {
    (6, 3)
}

/// Whether someone at `at` stands right below the incense, facing the shrine.
pub open spec fn faces_shrine(at: (usize, usize)) -> bool {
    at == (3usize, 3usize)
}

fn facing_shrine(at: (usize, usize)) -> (b: bool)
    ensures
        b == faces_shrine(at),
{
    at.0 == 3 && at.1 == 3
}

pub type Id = u64;

/// One visitor in the temple.
pub struct Pilgrim {
    pub avatar: usize,
    pub at: (usize, usize),
    /// Bowing right now; the incense burns for everyone meanwhile.
    pub praying: bool,
    /// The line shown to this visitor after bowing.
    pub blessing: Option<String>,
}

/// Everyone in the temple at this moment, shared by all sessions.
pub struct World {
    pub pilgrims: HashMap<Id, Pilgrim>,
}

impl View for World {
    type V = Map<Id, Pilgrim>;

    open spec fn view(&self) -> Map<Id, Pilgrim> {
        self.pilgrims@
    }
}

impl Default for World {
    fn default() -> (w: World)
        ensures
            w@ == Map::<Id, Pilgrim>::empty(),
    {
        World { pilgrims: HashMap::new() }
    }
}

/// What the session has to do after a key press.
pub enum Action {
    Idle,
    Redraw,
    /// Incense offered: record a visit in the ledger.
    Worship,
    /// Leave the temple and end the session.
    Leave,
}

/// A visitor who just came in.
pub open spec fn newcomer(avatar: usize) -> Pilgrim {
    Pilgrim { avatar, at: start_at(), praying: false, blessing: None }
}

/// `p` with another position.
pub open spec fn moved(p: Pilgrim, to: (usize, usize)) -> Pilgrim {
    Pilgrim { avatar: p.avatar, at: to, praying: p.praying, blessing: p.blessing }
}

/// `p` bowing.
pub open spec fn bowing(p: Pilgrim) -> Pilgrim {
    Pilgrim { avatar: p.avatar, at: p.at, praying: true, blessing: p.blessing }
}

/// `p` risen again, the blessing gone.
pub open spec fn risen(p: Pilgrim) -> Pilgrim {
    Pilgrim { avatar: p.avatar, at: p.at, praying: false, blessing: None }
}

/// `p` with a blessing to read.
pub open spec fn blessed(p: Pilgrim, line: String) -> Pilgrim {
    Pilgrim { avatar: p.avatar, at: p.at, praying: p.praying, blessing: Some(line) }
}

/// Whether a position lies on the map.
pub open spec fn on_map(at: (usize, usize)) -> bool {
    at.0 < H && at.1 < W
}

/// Whether `key` walks off the open bottom from `at`.
pub open spec fn walks_out(at: (usize, usize), key: Key) -> bool {
    key == Key::Down && at.0 + 1 >= H
}

/// The cell that `key` points at from `at`, if it lies on the map.
pub open spec fn target(at: (usize, usize), key: Key) -> Option<(usize, usize)> {
    let (r, c) = at;
    if key == Key::Up && r > 0 {
        Some(((r - 1) as usize, c))
    } else if key == Key::Down && r + 1 < H {
        Some(((r + 1) as usize, c))
    } else if key == Key::Left && c > 0 {
        Some((r, (c - 1) as usize))
    } else if key == Key::Right && c + 1 < W {
        Some((r, (c + 1) as usize))
    } else {
        None
    }
}

/// The effect of a step from `at`: walls, the table and the incense block.
pub open spec fn stepped(w: Map<Id, Pilgrim>, id: Id, key: Key) -> (Map<Id, Pilgrim>, Action) {
    let p = w[id];
    if walks_out(p.at, key) {
        (w, Action::Leave)
    } else {
        match target(p.at, key) {
            Some(to) => if map_tile(to.0 as int, to.1 as int) == '.' {
                (w.insert(id, moved(p, to)), Action::Redraw)
            } else {
                (w, Action::Idle)
            },
            None => (w, Action::Idle),
        }
    }
}

/// The effect of one key press by `id` on the world.
pub open spec fn handled(w: Map<Id, Pilgrim>, id: Id, key: Key) -> (Map<Id, Pilgrim>, Action) {
    if !w.contains_key(id) {
        (w, Action::Idle)
    } else if w[id].praying {
        (w.insert(id, risen(w[id])), Action::Redraw)
    } else if key == Key::Quit {
        (w, Action::Leave)
    } else if key == Key::Space && faces_shrine(w[id].at) {
        (w.insert(id, bowing(w[id])), Action::Worship)
    } else {
        stepped(w, id, key)
    }
}

/// Whether anyone bows right now; the incense then burns for all to see.
pub open spec fn someone_praying(w: Map<Id, Pilgrim>) -> bool {
    exists|k: Id| w.contains_key(k) && #[trigger] w[k].praying
}

/// Whether somebody stands at `at`.
pub open spec fn occupied(w: Map<Id, Pilgrim>, at: (usize, usize)) -> bool {
    exists|k: Id| w.contains_key(k) && #[trigger] w[k].at == at
}

/// A sequence that lists exactly the visitors of `w`.
proof fn lemma_listed_values(w: Map<Id, Pilgrim>, s: Seq<Pilgrim>)
    requires
        s.to_set() == w.values(),
    ensures
        forall|j: int| 0 <= j < s.len() ==> #[trigger] w.values().contains(s[j]),
        forall|k: Id| #[trigger] w.contains_key(k) ==> s.contains(w[k]),
{
    assert forall|j: int| 0 <= j < s.len() implies #[trigger] w.values().contains(s[j]) by {
        assert(s.to_set().contains(s[j]));
    }
    assert forall|k: Id| #[trigger] w.contains_key(k) implies s.contains(w[k]) by {
        assert(w.values().contains(w[k]));
        assert(s.to_set().contains(w[k]));
    }
}

/// What a cell shows: `shown` is the face there, if anyone stands there.
/// One's own face wins over the others standing in the same cell.
pub open spec fn valid_shown(w: Map<Id, Pilgrim>, id: Id, at: (usize, usize), shown: Option<usize>) -> bool {
    match shown {
        None => !occupied(w, at),
        Some(a) => {
            &&& exists|k: Id| w.contains_key(k) && #[trigger] w[k].at == at && w[k].avatar == a
            &&& (w.contains_key(id) && w[id].at == at ==> a == w[id].avatar)
        },
    }
}

/// The faces shown in the 7 x 7 cells, row by row, as seen by `id`.
pub open spec fn valid_faces(w: Map<Id, Pilgrim>, id: Id, faces: Seq<Option<usize>>) -> bool {
    &&& faces.len() == H * W
    &&& forall|r: usize, c: usize|
        r < H && c < W ==> valid_shown(w, id, (r, c), #[trigger] faces[r * W + c])
}

/// The text of a map tile; lanterns alternate red and yellow by column.
pub open spec fn tile_text(t: char, c: int) -> Seq<char> {
    if t == ' ' {
        VOID@
    } else if t == 'L' && c % 2 == 0 {
        LANTERN_RED@
    } else if t == 'L' {
        LANTERN_YELLOW@
    } else if t == 'W' {
        WALL@
    } else if t == 'B' {
        TABLE@
    } else if t == 'C' {
        CANDLE@
    } else {
        FLOOR@
    }
}

/// The text of one cell: a face, the burning incense, or the tile.
pub open spec fn cell_text(faces: Seq<Option<usize>>, lit: bool, r: int, c: int) -> Seq<char> {
    match faces[r * W + c] {
        Some(a) => avatar_text(a as int),
        None => if r == 2 && c == 3 && lit {
            FIRE@
        } else {
            tile_text(map_tile(r, c), c)
        },
    }
}

/// The first `n` cells of row `r`.
pub open spec fn row_text(faces: Seq<Option<usize>>, lit: bool, r: int, n: int) -> Seq<char>
    decreases n,
{
    if n <= 0 {
        Seq::empty()
    } else {
        row_text(faces, lit, r, n - 1) + cell_text(faces, lit, r, n - 1)
    }
}

/// The first `n` rows of the map, each indented and ended by CR LF.
pub open spec fn rows_text(faces: Seq<Option<usize>>, lit: bool, n: int) -> Seq<char>
    decreases n,
{
    if n <= 0 {
        Seq::empty()
    } else {
        rows_text(faces, lit, n - 1) + "  "@ + row_text(faces, lit, n - 1, W as int) + "\r\n"@
    }
}

/// The hint under the map for `id`: the blessing while bowing, the
/// invitation to bow right below the shrine, otherwise how to walk.
pub open spec fn footer_text(w: Map<Id, Pilgrim>, id: Id) -> Seq<char> {
    if w.contains_key(id) && w[id].praying {
        let blessing = match w[id].blessing {
            Some(line) => "  \x1b[33m"@ + line@ + "\x1b[0m\r\n"@,
            None => Seq::empty(),
        };
        blessing + "  \x1b[2m按任意鍵起身\x1b[0m\r\n"@
    } else if w.contains_key(id) && faces_shrine(w[id].at) {
        "  \x1b[2m↑ 神龕在前，按空格上香\x1b[0m\r\n"@
    } else {
        "  \x1b[2m方向鍵走動，走到下方出口即離廟\x1b[0m\r\n"@
    }
}

/// The whole screen as `id` sees it, given the faces shown in the cells.
pub open spec fn screen_text(w: Map<Id, Pilgrim>, id: Id, faces: Seq<Option<usize>>) -> Seq<char> {
    "\x1b[2J\x1b[H\x1b[?25l\r\n"@ + rows_text(faces, someone_praying(w), H as int) + "\r\n"@
        + footer_text(w, id) + "  \x1b[2m廟中此刻 "@ + decimal(w.len()) + " 人\x1b[0m\r\n"@
}

/// Every face index in the world names one of the faces.
pub open spec fn faces_known(w: Map<Id, Pilgrim>) -> bool {
    forall|k: Id| #[trigger] w.contains_key(k) ==> w[k].avatar < AVATAR_COUNT
}

fn tile_str(t: char, c: usize) -> (s: &'static str)
    ensures
        s@ == tile_text(t, c as int),
{
    if t == ' ' {
        VOID
    } else if t == 'L' && c % 2 == 0 {
        LANTERN_RED
    } else if t == 'L' {
        LANTERN_YELLOW
    } else if t == 'W' {
        WALL
    } else if t == 'B' {
        TABLE
    } else if t == 'C' {
        CANDLE
    } else {
        FLOOR
    }
}

impl World {
    /// Whether anyone bows right now.
    fn anyone_praying(&self) -> (b: bool)
        ensures
            b == someone_praying(self@),
    {
        let mut lit = false;
        let ghost full = spec_values_iter(&self.pilgrims).remaining().unref();
        let ghost mut seen: Seq<Pilgrim> = Seq::empty();
        for p in it: self.pilgrims.values()
            invariant
                it.seq().unref() == full,
                seen == full.take(it.index()),
                lit == exists|j: int| 0 <= j < seen.len() && (#[trigger] seen[j]).praying,
        {
            let ghost prev = seen;
            proof {
                seen = seen.push(*p);
                assert(seen =~= full.take(it.index() + 1));
            }
            if p.praying {
                lit = true;
            }
            proof {
                assert(forall|j: int| 0 <= j < prev.len() ==> seen[j] == prev[j]);
                if p.praying {
                    assert(seen[prev.len() as int].praying);
                } else if lit {
                    let j = choose|j: int| 0 <= j < prev.len() && (#[trigger] prev[j]).praying;
                    assert(seen[j].praying);
                } else {
                    assert forall|j: int| 0 <= j < seen.len() implies !(#[trigger] seen[j]).praying by {
                        if j < prev.len() {
                            assert(seen[j] == prev[j]);
                        }
                    }
                }
            }
        }
        proof {
            assert(seen =~= full);
            assert(full.to_set() == self@.values());
            lemma_listed_values(self@, full);
            if lit {
                let j = choose|j: int| 0 <= j < seen.len() && (#[trigger] seen[j]).praying;
                assert(self@.values().contains(full[j]));
                let k = choose|k: Id| self@.contains_key(k) && self@[k] == full[j];
                assert(self@[k].praying);
            }
            if someone_praying(self@) {
                let k = choose|k: Id| self@.contains_key(k) && #[trigger] self@[k].praying;
                assert(full.contains(self@[k]));
                let j = choose|j: int| 0 <= j < full.len() && full[j] == self@[k];
                assert(seen[j].praying);
            }
        }
        lit
    }

    /// The face shown at `at`: one's own first, otherwise the last visitor
    /// found standing there.
    fn shown_at(&self, id: Id, at: (usize, usize)) -> (shown: Option<usize>)
        ensures
            valid_shown(self@, id, at, shown),
    {
        if let Some(me) = self.pilgrims.get(&id) {
            if me.at.0 == at.0 && me.at.1 == at.1 {
                return Some(me.avatar);
            }
        }
        let ghost full = spec_values_iter(&self.pilgrims).remaining().unref();
        let ghost mut seen: Seq<Pilgrim> = Seq::empty();
        let mut found: Option<usize> = None;
        for p in it: self.pilgrims.values()
            invariant
                it.seq().unref() == full,
                seen == full.take(it.index()),
                found is None ==> forall|j: int| 0 <= j < seen.len() ==> (#[trigger] seen[j]).at != at,
                found matches Some(a) ==> exists|j: int|
                    0 <= j < seen.len() && (#[trigger] seen[j]).at == at && seen[j].avatar == a,
        {
            let ghost prev = seen;
            proof {
                seen = seen.push(*p);
                assert(seen =~= full.take(it.index() + 1));
                assert(forall|j: int| 0 <= j < prev.len() ==> seen[j] == prev[j]);
            }
            if p.at.0 == at.0 && p.at.1 == at.1 {
                found = Some(p.avatar);
                proof {
                    assert(seen[prev.len() as int].at == at);
                }
            } else {
                proof {
                    if let Some(a) = found {
                        let j = choose|j: int|
                            0 <= j < prev.len() && (#[trigger] prev[j]).at == at && prev[j].avatar == a;
                        assert(seen[j] == prev[j]);
                    }
                }
            }
        }
        proof {
            assert(seen =~= full);
            assert(full.to_set() == self@.values());
            lemma_listed_values(self@, full);
            match found {
                Some(a) => {
                    let j = choose|j: int|
                        0 <= j < seen.len() && (#[trigger] seen[j]).at == at && seen[j].avatar == a;
                    assert(self@.values().contains(full[j]));
                    let k = choose|k: Id| self@.contains_key(k) && self@[k] == full[j];
                    assert(self@[k].at == at);
                },
                None => {
                    if occupied(self@, at) {
                        let k = choose|k: Id| self@.contains_key(k) && #[trigger] self@[k].at == at;
                        assert(full.contains(self@[k]));
                        let j = choose|j: int| 0 <= j < full.len() && full[j] == self@[k];
                        assert(seen[j].at == at);
                    }
                },
            }
        }
        found
    }

    /// The faces to show in every cell, row by row.
    fn faces(&self, id: Id) -> (faces: Vec<Option<usize>>)
        ensures
            valid_faces(self@, id, faces@),
    {
        let mut faces: Vec<Option<usize>> = Vec::new();
        let mut r: usize = 0;
        while r < H
            invariant
                r <= H,
                faces@.len() == r * W,
                forall|r1: usize, c1: usize|
                    r1 < r && c1 < W ==> valid_shown(self@, id, (r1, c1), #[trigger] faces@[r1 * W + c1]),
            decreases H - r,
        {
            let mut c: usize = 0;
            while c < W
                invariant
                    r < H,
                    c <= W,
                    faces@.len() == r * W + c,
                    forall|r1: usize, c1: usize|
                        (r1 < r && c1 < W) || (r1 == r && c1 < c) ==> valid_shown(
                            self@,
                            id,
                            (r1, c1),
                            #[trigger] faces@[r1 * W + c1],
                        ),
                decreases W - c,
            {
                let shown = self.shown_at(id, (r, c));
                faces.push(shown);
                c = c + 1;
            }
            r = r + 1;
        }
        faces
    }

    /// Draws the temple as `id` sees it.
    pub fn render(&self, id: Id) -> (out: String)
        requires
            faces_known(self@),
        ensures
            exists|faces: Seq<Option<usize>>| valid_faces(self@, id, faces) && out@ == screen_text(self@, id, faces),
    {
        let mut out = String::from_str("\x1b[2J\x1b[H\x1b[?25l\r\n");
        let lit = self.anyone_praying();
        let faces = self.faces(id);
        let ghost head = out@;
        let mut r: usize = 0;
        while r < H
            invariant
                r <= H,
                valid_faces(self@, id, faces@),
                faces_known(self@),
                lit == someone_praying(self@),
                out@ == head + rows_text(faces@, lit, r as int),
            decreases H - r,
        {
            out.append("  ");
            let ghost before_row = out@;
            let mut c: usize = 0;
            while c < W
                invariant
                    r < H,
                    c <= W,
                    valid_faces(self@, id, faces@),
                    faces_known(self@),
                    out@ == before_row + row_text(faces@, lit, r as int, c as int),
                decreases W - c,
            {
                assert(valid_shown(self@, id, (r, c), faces@[r * W + c]));
                match faces[r * W + c] {
                    Some(a) => {
                        proof {
                            let k = choose|k: Id| self@.contains_key(k) && #[trigger] self@[k].at == (r, c)
                                && self@[k].avatar == a;
                            assert(a < AVATAR_COUNT);
                        }
                        out.append(avatar(a));
                    },
                    None => {
                        if r == 2 && c == 3 && lit {
                            out.append(FIRE);
                        } else {
                            out.append(tile_str(tile(r, c), c));
                        }
                    },
                }
                c = c + 1;
            }
            out.append("\r\n");
            r = r + 1;
        }
        out.append("\r\n");
        match self.pilgrims.get(&id) {
            Some(p) if p.praying => {
                if let Some(line) = &p.blessing {
                    out.append("  \x1b[33m");
                    out.append(line.as_str());
                    out.append("\x1b[0m\r\n");
                }
                out.append("  \x1b[2m按任意鍵起身\x1b[0m\r\n");
            },
            Some(p) if facing_shrine(p.at) => {
                out.append("  \x1b[2m↑ 神龕在前，按空格上香\x1b[0m\r\n");
            },
            _ => {
                out.append("  \x1b[2m方向鍵走動，走到下方出口即離廟\x1b[0m\r\n");
            },
        }
        out.append("  \x1b[2m廟中此刻 ");
        push_decimal(&mut out, self.present() as u64);
        out.append(" 人\x1b[0m\r\n");
        proof {
            assert(out@ =~= screen_text(self@, id, faces@));
        }
        out
    }

    /// Lets `id` in with face `avatar`, standing at the open bottom.
    pub fn join(&mut self, id: Id, avatar: usize)
        ensures
            final(self)@ == old(self)@.insert(id, newcomer(avatar)),
    {
        self.pilgrims.insert(id, Pilgrim { avatar, at: (6, 3), praying: false, blessing: None });
    }

    /// Lets `id` out.
    pub fn leave(&mut self, id: Id)
        ensures
            final(self)@ == old(self)@.remove(id),
    {
        self.pilgrims.remove(&id);
    }

    /// How many are in the temple now.
    pub fn present(&self) -> (n: usize)
        ensures
            n == self@.len(),
    {
        self.pilgrims.len()
    }

    /// Whether `id` is in the temple.
    pub fn is_in(&self, id: Id) -> (b: bool)
        ensures
            b == self@.contains_key(id),
    {
        self.pilgrims.contains_key(&id)
    }

    /// Gives `id` the line to read while bowing; nobody by that id, nothing happens.
    pub fn set_blessing(&mut self, id: Id, line: String)
        ensures
            old(self)@.contains_key(id) ==> final(self)@ == old(self)@.insert(
                id,
                blessed(old(self)@[id], line),
            ),
            !old(self)@.contains_key(id) ==> final(self)@ == old(self)@,
    {
        if let Some(p) = self.pilgrims.remove(&id) {
            let Pilgrim { avatar, at, praying, blessing: _ } = p;
            self.pilgrims.insert(id, Pilgrim { avatar, at, praying, blessing: Some(line) });
            proof {
                assert(self@ =~= old(self)@.insert(id, blessed(old(self)@[id], line)));
            }
        }
    }

    /// Reacts to a key pressed by `id`. A bowing visitor rises on any key;
    /// Space right below the incense bows; other keys walk.
    pub fn handle(&mut self, id: Id, key: Key) -> (a: Action)
        requires
            old(self)@.contains_key(id) ==> on_map(old(self)@[id].at),
        ensures
            (final(self)@, a) == handled(old(self)@, id, key),
    {
        let (at, praying) = match self.pilgrims.get(&id) {
            Some(p) => (p.at, p.praying),
            None => {
                return Action::Idle;
            },
        };
        if praying {
            // Any key after bowing: rise and walk on.
            if let Some(p) = self.pilgrims.remove(&id) {
                let Pilgrim { avatar, at, praying: _, blessing: _ } = p;
                self.pilgrims.insert(id, Pilgrim { avatar, at, praying: false, blessing: None });
            }
            proof {
                assert(self@ =~= old(self)@.insert(id, risen(old(self)@[id])));
            }
            return Action::Redraw;
        }
        match key {
            Key::Quit => Action::Leave,
            Key::Space if facing_shrine(at) => {
                // Light the incense, bow and record the visit in one go.
                if let Some(p) = self.pilgrims.remove(&id) {
                    let Pilgrim { avatar, at, praying: _, blessing } = p;
                    self.pilgrims.insert(id, Pilgrim { avatar, at, praying: true, blessing });
                }
                proof {
                    assert(self@ =~= old(self)@.insert(id, bowing(old(self)@[id])));
                }
                Action::Worship
            },
            _ => self.step(id, at, key),
        }
    }

    fn step(&mut self, id: Id, from: (usize, usize), key: Key) -> (a: Action)
        requires
            old(self)@.contains_key(id),
            old(self)@[id].at == from,
            on_map(from),
            !(key == Key::Quit),
        ensures
            (final(self)@, a) == stepped(old(self)@, id, key),
    {
        let (r, c) = from;
        if key == Key::Down && r + 1 >= H {
            // The whole bottom is open: a step down from the last row leaves.
            return Action::Leave;
        }
        let dest: Option<(usize, usize)> = match key {
            Key::Up if r > 0 => Some((r - 1, c)),
            Key::Down => Some((r + 1, c)),
            Key::Left if c > 0 => Some((r, c - 1)),
            Key::Right if c + 1 < W => Some((r, c + 1)),
            _ => None,
        };
        assert(dest == target(from, key));
        let to = match dest {
            Some(to) => to,
            None => {
                return Action::Idle;
            },
        };
        if tile(to.0, to.1) != '.' {
            return Action::Idle;  // walls, the table and the incense all block

        }
        if let Some(p) = self.pilgrims.remove(&id) {
            let Pilgrim { avatar, at: _, praying, blessing } = p;
            self.pilgrims.insert(id, Pilgrim { avatar, at: to, praying, blessing });
        }
        proof {
            assert(self@ =~= old(self)@.insert(id, moved(old(self)@[id], to)));
        }
        Action::Redraw
    }
}

/// Everyone stands on the floor, and whoever bows stands right below the incense.
pub open spec fn orderly(w: Map<Id, Pilgrim>) -> bool {
    forall|k: Id|
        #[trigger] w.contains_key(k) ==> {
            &&& on_map(w[k].at)
            &&& map_tile(w[k].at.0 as int, w[k].at.1 as int) == '.'
            &&& (w[k].praying ==> faces_shrine(w[k].at))
        }
}

/// Walls, the table and the incense block the way: whatever key anyone
/// presses, everybody stays on the floor, and nobody bows anywhere but right
/// below the incense.
pub proof fn law_keys_keep_order(w: Map<Id, Pilgrim>, id: Id, key: Key)
    requires
        orderly(w),
    ensures
        orderly(handled(w, id, key).0),
{
    let w2 = handled(w, id, key).0;
    assert forall|k: Id| #[trigger] w2.contains_key(k) implies {
        &&& on_map(w2[k].at)
        &&& map_tile(w2[k].at.0 as int, w2[k].at.1 as int) == '.'
        &&& (w2[k].praying ==> faces_shrine(w2[k].at))
    } by {
        assert(w.contains_key(k));
    }
}

/// Coming in, leaving and being given a blessing keep the temple in order too.
pub proof fn law_comings_and_goings_keep_order(w: Map<Id, Pilgrim>, id: Id, avatar: usize, line: String)
    requires
        orderly(w),
    ensures
        orderly(w.insert(id, newcomer(avatar))),
        orderly(w.remove(id)),
        w.contains_key(id) ==> orderly(w.insert(id, blessed(w[id], line))),
{
    let w1 = w.insert(id, newcomer(avatar));
    assert forall|k: Id| #[trigger] w1.contains_key(k) implies {
        &&& on_map(w1[k].at)
        &&& map_tile(w1[k].at.0 as int, w1[k].at.1 as int) == '.'
        &&& (w1[k].praying ==> faces_shrine(w1[k].at))
    } by {
        if k != id {
            assert(w.contains_key(k));
        }
    }
    let w2 = w.remove(id);
    assert forall|k: Id| #[trigger] w2.contains_key(k) implies {
        &&& on_map(w2[k].at)
        &&& map_tile(w2[k].at.0 as int, w2[k].at.1 as int) == '.'
        &&& (w2[k].praying ==> faces_shrine(w2[k].at))
    } by {
        assert(w.contains_key(k));
    }
    if w.contains_key(id) {
        let w3 = w.insert(id, blessed(w[id], line));
        assert forall|k: Id| #[trigger] w3.contains_key(k) implies {
            &&& on_map(w3[k].at)
            &&& map_tile(w3[k].at.0 as int, w3[k].at.1 as int) == '.'
            &&& (w3[k].praying ==> faces_shrine(w3[k].at))
        } by {
            assert(w.contains_key(k));
        }
    }
}

/// A key pressed by one visitor moves nobody else.
pub proof fn law_keys_touch_only_the_presser(w: Map<Id, Pilgrim>, id: Id, key: Key, other: Id)
    requires
        other != id,
    ensures
        handled(w, id, key).0.contains_key(other) == w.contains_key(other),
        w.contains_key(other) ==> handled(w, id, key).0[other] == w[other],
{
}

/// Space right below the incense bows and asks for the visit to be recorded;
/// the next key, whichever it is, rises again on the same spot.
pub proof fn law_bow_then_rise(w: Map<Id, Pilgrim>, id: Id, key: Key)
    requires
        w.contains_key(id),
        !w[id].praying,
        faces_shrine(w[id].at),
    ensures
        handled(w, id, Key::Space) == (w.insert(id, bowing(w[id])), Action::Worship),
        handled(handled(w, id, Key::Space).0, id, key) == (w.insert(id, risen(w[id])), Action::Redraw),
{
    let w1 = w.insert(id, bowing(w[id]));
    assert(w1.insert(id, risen(w1[id])) =~= w.insert(id, risen(w[id])));
}

/// Space anywhere but right below the incense does nothing.
pub proof fn law_space_elsewhere_does_nothing(w: Map<Id, Pilgrim>, id: Id)
    requires
        w.contains_key(id) ==> !w[id].praying && !faces_shrine(w[id].at),
    ensures
        handled(w, id, Key::Space) == (w, Action::Idle),
{
}

/// One visitor bowing lights the incense on every visitor's screen: nobody
/// can stand on it, so its cell always shows the flame.
pub proof fn law_incense_seen_by_all(w: Map<Id, Pilgrim>, viewer: Id, faces: Seq<Option<usize>>)
    requires
        orderly(w),
        someone_praying(w),
        valid_faces(w, viewer, faces),
    ensures
        cell_text(faces, someone_praying(w), 2, 3) == FIRE@,
{
    let at = (2usize, 3usize);
    assert(valid_shown(w, viewer, at, faces[2 * W + 3]));
    if occupied(w, at) {
        let k = choose|k: Id| w.contains_key(k) && #[trigger] w[k].at == at;
        assert(map_tile(2, 3) == 'C');
    }
}

/// While nobody bows the incense stays dark on every visitor's screen.
pub proof fn law_incense_dark_while_nobody_bows(w: Map<Id, Pilgrim>, viewer: Id, faces: Seq<Option<usize>>)
    requires
        orderly(w),
        !someone_praying(w),
        valid_faces(w, viewer, faces),
    ensures
        cell_text(faces, someone_praying(w), 2, 3) == CANDLE@,
{
    let at = (2usize, 3usize);
    assert(valid_shown(w, viewer, at, faces[2 * W + 3]));
    if occupied(w, at) {
        let k = choose|k: Id| w.contains_key(k) && #[trigger] w[k].at == at;
        assert(map_tile(2, 3) == 'C');
    }
}

} // verus!

verus! {

/// The face chooser shown on a first visit. Not in the world yet, so the
/// state belongs to the session alone.
pub struct Choosing {
    cursor: usize,
}

impl View for Choosing {
    type V = nat;

    /// The index of the highlighted face.
    closed spec fn view(&self) -> nat {
        self.cursor as nat
    }
}

/// The head of the chooser screen.
pub open spec fn chooser_head() -> Seq<char> {
    "\x1b[2J\x1b[H\x1b[?25l"@ + "\r\n  媽祖廟前，先擇一副面容 🙏\r\n\r\n  "@
}

/// The first `n` faces of the chooser row, the one under the cursor highlighted.
pub open spec fn chooser_row(cursor: nat, n: int) -> Seq<char>
    decreases n,
{
    if n <= 0 {
        Seq::empty()
    } else {
        chooser_row(cursor, n - 1) + if n - 1 == cursor {
            "\x1b[43;30m "@ + avatar_text(n - 1) + " \x1b[0m"@
        } else {
            " "@ + avatar_text(n - 1) + " "@
        }
    }
}

/// The whole chooser screen.
pub open spec fn chooser_text(cursor: nat) -> Seq<char> {
    chooser_head() + chooser_row(cursor, AVATAR_COUNT as int)
        + "\r\n\r\n  \x1b[2m← → 挑選，Enter 確定\x1b[0m\r\n"@
}

/// Faces `lo` up to `hi` (exclusive) drawn plainly, each between two spaces.
pub open spec fn plain_faces(lo: int, hi: int) -> Seq<char>
    decreases hi - lo,
{
    if hi <= lo {
        Seq::empty()
    } else {
        plain_faces(lo, hi - 1) + " "@ + avatar_text(hi - 1) + " "@
    }
}

/// Face `c` drawn highlighted.
pub open spec fn highlighted_face(c: int) -> Seq<char> {
    "\x1b[43;30m "@ + avatar_text(c) + " \x1b[0m"@
}

proof fn lemma_chooser_row(c: nat, n: int)
    requires
        0 <= n,
    ensures
        n <= c ==> chooser_row(c, n) == plain_faces(0, n),
        n > c ==> chooser_row(c, n) == plain_faces(0, c as int) + highlighted_face(c as int) + plain_faces(
            (c + 1) as int,
            n,
        ),
    decreases n,
{
    if n > 0 {
        lemma_chooser_row(c, n - 1);
        if n - 1 == c {
            assert(plain_faces((c + 1) as int, n) =~= Seq::<char>::empty());
            assert(chooser_row(c, n) =~= plain_faces(0, c as int) + highlighted_face(c as int) + plain_faces(
                (c + 1) as int,
                n,
            ));
        } else if n - 1 > c {
            assert(chooser_row(c, n) =~= plain_faces(0, c as int) + highlighted_face(c as int) + plain_faces(
                (c + 1) as int,
                n,
            ));
        } else {
            assert(chooser_row(c, n) =~= plain_faces(0, n));
        }
    } else {
        assert(chooser_row(c, n) =~= plain_faces(0, n));
    }
}

/// The chooser shows exactly one face highlighted, the one under the cursor
/// (which Enter or Space picks); every face before and after it is plain.
pub proof fn law_chooser_highlights_the_pick(c: nat)
    requires
        c < AVATAR_COUNT,
    ensures
        chooser_text(c) == chooser_head() + plain_faces(0, c as int) + highlighted_face(c as int)
            + plain_faces((c + 1) as int, AVATAR_COUNT as int) + "\r\n\r\n  \x1b[2m← → 挑選，Enter 確定\x1b[0m\r\n"@,
{
    lemma_chooser_row(c, AVATAR_COUNT as int);
    assert(chooser_text(c) =~= chooser_head() + plain_faces(0, c as int) + highlighted_face(c as int)
        + plain_faces((c + 1) as int, AVATAR_COUNT as int) + "\r\n\r\n  \x1b[2m← → 挑選，Enter 確定\x1b[0m\r\n"@);
}

impl Choosing {
    #[verifier::type_invariant]
    spec fn cursor_in_range(self) -> bool {
        self.cursor < AVATAR_COUNT
    }

    /// The chooser with the first face highlighted.
    pub fn new() -> (c: Self)
        ensures
            c@ == 0,
    {
        Self { cursor: 0 }
    }

    /// Left and Right move the cursor round the ring of faces; Enter or
    /// Space pick the face under it.
    pub fn handle(&mut self, key: Key) -> (picked: Option<usize>)
        ensures
            final(self)@ < AVATAR_COUNT,
            key == Key::Left ==> final(self)@ == (old(self)@ + AVATAR_COUNT - 1) % (
            AVATAR_COUNT as int) && picked is None,
            key == Key::Right ==> final(self)@ == (old(self)@ + 1) % (AVATAR_COUNT as nat)
                && picked is None,
            key == Key::Enter || key == Key::Space ==> final(self)@ == old(self)@ && picked
                == Some(old(self)@ as usize),
            !(key == Key::Left || key == Key::Right || key == Key::Enter || key == Key::Space)
                ==> final(self)@ == old(self)@ && picked is None,
    {
        proof {
            use_type_invariant(&*self);
        }
        match key {
            Key::Left => {
                self.cursor = (self.cursor + AVATAR_COUNT - 1) % AVATAR_COUNT;
                None
            },
            Key::Right => {
                self.cursor = (self.cursor + 1) % AVATAR_COUNT;
                None
            },
            Key::Enter | Key::Space => Some(self.cursor),
            _ => None,
        }
    }

    /// Draws the row of faces with the chosen one highlighted.
    pub fn render(&self) -> (out: String)
        ensures
            out@ == chooser_text(self@),
    {
        proof {
            use_type_invariant(self);
        }
        let mut out = String::from_str("\x1b[2J\x1b[H\x1b[?25l");
        out.append("\r\n  媽祖廟前，先擇一副面容 🙏\r\n\r\n  ");
        let mut n: usize = 0;
        while n < AVATAR_COUNT
            invariant
                n <= AVATAR_COUNT,
                out@ == chooser_head() + chooser_row(self@, n as int),
            decreases AVATAR_COUNT - n,
        {
            let a = avatar(n);
            if n == self.cursor {
                out.append("\x1b[43;30m ");
                out.append(a);
                out.append(" \x1b[0m");
            } else {
                out.append(" ");
                out.append(a);
                out.append(" ");
            }
            n = n + 1;
        }
        out.append("\r\n\r\n  \x1b[2m← → 挑選，Enter 確定\x1b[0m\r\n");
        out
    }
}

/// Left undoes Right and Right undoes Left: the faces form a ring.
pub proof fn law_left_right_undo(c: nat)
    requires
        c < AVATAR_COUNT,
    ensures
        ((c + 1) % (AVATAR_COUNT as nat) + AVATAR_COUNT - 1) % (AVATAR_COUNT as int) == c,
        (((c + AVATAR_COUNT - 1) % (AVATAR_COUNT as int)) + 1) % (AVATAR_COUNT as int) == c,
{
}

} // verus!
