use vstd::prelude::*;
use vstd::arithmetic::div_mod::{lemma_fundamental_div_mod, lemma_mod_bound};
use vstd::set_lib::{lemma_int_range, lemma_len_subset, set_int_range};

use crate::cell::{DisplayState, Field, Key};
use crate::rng::random_usize;

verus! {

/// Number of columns of the board.
pub const WIDTH: usize = 64;

/// Number of rows of the board.
pub const HEIGHT: usize = 35;

/// Number of cells of the board; cell `(x, y)` lives at index `y * WIDTH + x`.
pub const AREA: usize = WIDTH * HEIGHT;

/// Whether index `i` lies on the outer ring of the board
/// (first or last row, first or last column).
pub open spec fn is_border_cell(i: int) -> bool {
    ||| i % (WIDTH as int) == 0
    ||| i % (WIDTH as int) == WIDTH as int - 1
    ||| i / (WIDTH as int) == 0
    ||| i / (WIDTH as int) == HEIGHT as int - 1
}

/// The fixed interior index where the head starts, slightly below the
/// vertical centre of the board.
pub const START_HEAD: usize = (HEIGHT + 2) * WIDTH / 2;

/// A cell that is not on the outer ring has all four axis-aligned
/// neighbours on the board: none of the four index offsets leaves the
/// address range.
pub proof fn lemma_interior_bounds(i: int)
    requires
        0 <= i < AREA as int,
        !is_border_cell(i),
    ensures
        1 <= i % (WIDTH as int) <= (WIDTH as int) - 2,
        1 <= i / (WIDTH as int) <= (HEIGHT as int) - 2,
        0 < i - 1,
        i + 1 < AREA as int,
        0 <= i - (WIDTH as int),
        i + (WIDTH as int) < AREA as int,
{
    lemma_fundamental_div_mod(i, WIDTH as int);
    lemma_mod_bound(i, WIDTH as int);
}

/// Whether `d` is one of the four axis-aligned unit offsets:
/// up is `-WIDTH`, down is `WIDTH`, left is `-1`, right is `1`.
pub open spec fn dir_ok(d: int) -> bool {
    ||| d == 1
    ||| d == -1
    ||| d == WIDTH as int
    ||| d == -(WIDTH as int)
}

/// The signed offset that a directional input selects; a non-directional
/// input keeps the previous offset.
pub open spec fn dir_of_key(key: Key, prev: i32) -> i32 {
    match key {
        Key::Up => (-(WIDTH as int)) as i32,
        Key::Down => WIDTH as i32,
        Key::Left => -1i32,
        Key::Right => 1i32,
        Key::Other => prev,
    }
}

/// The grid as construction leaves it, before food is placed: `Border`
/// on the outer ring, the head at its fixed start index, one body
/// segment immediately to its right, everything else `Empty`.
pub open spec fn initial_field(i: int) -> Field {
    if is_border_cell(i) {
        Field::Border
    } else if i == START_HEAD as int {
        Field::Head
    } else if i == START_HEAD as int + 1 {
        Field::Tail(START_HEAD)
    } else {
        Field::Empty
    }
}

/// Whether index `i` lies on the outer ring, computed on the board.
fn border_at(i: usize) -> (b: bool)
    requires
        i < AREA,
    ensures
        b == is_border_cell(i as int),
{
    let x: usize = i % WIDTH;
    let y: usize = i / WIDTH;
    x == 0 || x == WIDTH - 1 || y == 0 || y == HEIGHT - 1
}

/// The whole game world: a flat row-major grid of cells plus the
/// direction of travel and the indices of the head cell and of the
/// last body segment. The body is stored inside the grid itself, as a
/// chain of `Tail` cells each pointing one step closer to the head;
/// `body` is the ghost list of that chain's indices, from the last
/// segment up to and including the head.
pub struct World {
    pub direction: i32,
    pub head: usize,
    pub tail: usize,
    pub fields: Vec<Field>,
    pub body: Ghost<Seq<int>>,
}

impl World {
    /// The grid as a mathematical sequence.
    pub open spec fn grid(self) -> Seq<Field> {
        self.fields@
    }

    pub open spec fn spec_head(self) -> int {
        self.head as int
    }

    pub open spec fn spec_tail(self) -> int {
        self.tail as int
    }

    /// The ghost chain of body cell indices, from the end of the tail
    /// up to and including the head.
    pub open spec fn spec_body(self) -> Seq<int> {
        self.body@
    }

    /// The index one tick would move the head to: one step from `head`
    /// along `direction`, except that a step straight into the segment
    /// immediately behind the head (the neck) is tolerated by bouncing to
    /// the cell on the opposite side of the head.
    pub open spec fn spec_candidate(self) -> int {
        let c = self.spec_head() + self.direction as int;
        if 0 <= c < self.grid().len() && (self.grid()[c] matches Field::Tail(n) && n as int
            == self.spec_head()) {
            self.spec_head() - self.direction as int
        } else {
            c
        }
    }

    /// The simulation is live while the cell at `head` really carries the
    /// `Head` tag; once it does not, every further tick is a no-op.
    pub open spec fn live(self) -> bool {
        &&& 0 <= self.spec_head() < self.grid().len()
        &&& self.grid()[self.spec_head()] is Head
    }

    /// Some cell holds food.
    pub open spec fn has_food(self) -> bool {
        exists|i: int| 0 <= i < self.grid().len() && #[trigger] self.grid()[i] is Food
    }

    /// The body chain is well formed: it starts at `tail`, ends at `head`,
    /// every inner element is a `Tail` cell pointing at its successor, no
    /// cell appears twice, and every `Tail` cell of the grid is on it.
    pub open spec fn chain_ok(self) -> bool {
        let b = self.spec_body();
        &&& b.len() >= 2
        &&& b[0] == self.spec_tail()
        &&& b[b.len() - 1] == self.spec_head()
        &&& forall|k: int| 0 <= k < b.len() ==> 0 <= #[trigger] b[k] < AREA as int
        &&& forall|k: int|
            0 <= k < b.len() - 1 ==> self.grid()[#[trigger] b[k]] == Field::Tail(b[k + 1] as usize)
        &&& forall|k1: int, k2: int| 0 <= k1 < k2 < b.len() ==> b[k1] != b[k2]
        &&& forall|i: int|
            0 <= i < AREA as int && (#[trigger] self.grid()[i]) is Tail ==> exists|k: int|
                0 <= k < b.len() - 1 && b[k] == i
    }

    /// The world invariant: the grid has the fixed size, the direction is a
    /// unit offset, `Border` tags sit exactly on the outer ring, at most one
    /// cell is tagged `Head` (and only at `head`), at most one holds food,
    /// and while the simulation is live the body chain is intact.
    pub open spec fn wf(self) -> bool {
        &&& self.grid().len() == AREA as int
        &&& self.spec_head() < AREA as int
        &&& self.spec_tail() < AREA as int
        &&& dir_ok(self.direction as int)
        &&& forall|i: int|
            0 <= i < AREA as int ==> ((#[trigger] self.grid()[i]) is Border <==> is_border_cell(i))
        &&& forall|i: int|
            0 <= i < AREA as int && (#[trigger] self.grid()[i]) is Head ==> i == self.spec_head()
        &&& forall|i: int, j: int|
            0 <= i < AREA as int && 0 <= j < AREA as int && (#[trigger] self.grid()[i]) is Food
                && (#[trigger] self.grid()[j]) is Food ==> i == j
        &&& (self.live() ==> self.chain_ok())
    }

    /// Read one cell of the grid.
    pub fn field(&self, index: usize) -> (f: Field)
        requires
            self.grid().len() == AREA as int,
            index < AREA,
        ensures
            f == self.grid()[index as int],
    {
        self.fields[index]
    }

    /// The display category of one cell: what a renderer paints there.
    pub fn display_state(&self, index: usize) -> (d: DisplayState)
        requires
            self.grid().len() == AREA as int,
            index < AREA,
        ensures
            d == self.grid()[index as int].spec_display(),
    {
        self.fields[index].display()
    }

    /// Whether the simulation is still running: true exactly while the
    /// cell at `head` carries the `Head` tag. Once false, every further
    /// `update` leaves the world bit-identical.
    pub fn is_alive(&self) -> (b: bool)
        requires
            self.wf(),
        ensures
            b == self.live(),
    {
        match self.fields[self.head] {
            Field::Head => true,
            _ => false,
        }
    }

    /// Overwrite the direction of travel from a directional input; any
    /// other input changes nothing. No validation is made against the
    /// current heading: a caller can reverse the snake into its own neck,
    /// which `update` then tolerates by bouncing to the opposite side.
    pub fn change_player_direction(&mut self, key: Key)
        ensures
            final(self).direction == dir_of_key(key, old(self).direction),
            final(self).fields == old(self).fields,
            final(self).head == old(self).head,
            final(self).tail == old(self).tail,
            final(self).body == old(self).body,
            old(self).wf() ==> final(self).wf(),
    {
        self.direction = match key {
            Key::Up => -(WIDTH as i32),
            Key::Down => WIDTH as i32,
            Key::Left => -1,
            Key::Right => 1,
            Key::Other => { return; },
        };
    }

    /// Build the board without food: borders stamped on the outer ring,
    /// the head at its fixed start index with one body segment to its
    /// right pointing at it, direction set to left.
    pub fn new_unseeded() -> (w: World)
        ensures
            w.wf(),
            w.live(),
            !w.has_food(),
            w.head == START_HEAD,
            w.tail == START_HEAD + 1,
            w.direction == -1i32,
            forall|i: int| 0 <= i < AREA as int ==> (#[trigger] w.grid()[i]) == initial_field(i),
            w.spec_body().len() == 2,
            w.spec_body()[0] == START_HEAD as int + 1,
            w.spec_body()[1] == START_HEAD as int,
    {
        let mut fields: Vec<Field> = Vec::new();
        let mut i: usize = 0;
        while i < AREA
            invariant
                i <= AREA,
                fields@.len() == i as int,
                forall|j: int| 0 <= j < i as int ==> (#[trigger] fields@[j]) == initial_field(j),
            decreases AREA - i,
        {
            let f: Field = if border_at(i) {
                Field::Border
            } else if i == START_HEAD {
                Field::Head
            } else if i == START_HEAD + 1 {
                Field::Tail(START_HEAD)
            } else {
                Field::Empty
            };
            fields.push(f);
            i += 1;
        }
        let ghost body_seq: Seq<int> = seq![START_HEAD as int + 1, START_HEAD as int];
        let w = World {
            direction: -1,
            head: START_HEAD,
            tail: START_HEAD + 1,
            fields,
            body: Ghost(body_seq),
        };
        proof {
            assert(START_HEAD == 1184);
            assert(!is_border_cell(START_HEAD as int));
            assert(!is_border_cell(START_HEAD as int + 1));
            assert(initial_field(START_HEAD as int) == Field::Head);
            assert(initial_field(START_HEAD as int + 1) == Field::Tail(START_HEAD));
            assert(w.chain_ok());
        }
        w
    }

    /// Pick an `Empty` cell by rejection sampling: draw uniformly over the
    /// whole grid and keep the first index whose cell is `Empty`. While the
    /// grid has ample empty space the first few draws all but surely
    /// settle it; after a very large fixed number of failed draws the grid
    /// is scanned instead, so that the search always ends, and `None`
    /// comes back exactly when no cell is `Empty` at all.
    fn random_empty(&self) -> (r: Option<usize>)
        requires
            self.grid().len() == AREA as int,
        ensures
            match r {
                Some(idx) => idx < AREA && self.grid()[idx as int] is Empty,
                None => forall|i: int|
                    0 <= i < AREA as int ==> !((#[trigger] self.grid()[i]) is Empty),
            },
    {
        let mut tries: usize = 0;
        while tries < 64 * AREA
            invariant
                self.grid().len() == AREA as int,
            decreases 64 * AREA - tries,
        {
            let mut index: usize = random_usize();
            index = index % AREA;
            match self.fields[index] {
                Field::Empty => { return Some(index); },
                _ => {},
            }
            tries = tries + 1;
        }
        let mut i: usize = 0;
        while i < AREA
            invariant
                self.grid().len() == AREA as int,
                i <= AREA,
                forall|j: int| 0 <= j < i as int ==> !((#[trigger] self.grid()[j]) is Empty),
            decreases AREA - i,
        {
            match self.fields[i] {
                Field::Empty => { return Some(i); },
                _ => {},
            }
            i = i + 1;
        }
        None
    }

    /// Put food on an `Empty` cell of a board that has none: the one write
    /// that `new` and a food-consuming tick use to (re)seed the food.
    pub fn place_food(&mut self, index: usize)
        requires
            old(self).wf(),
            index < AREA,
            old(self).grid()[index as int] is Empty,
            !old(self).has_food(),
        ensures
            final(self).wf(),
            final(self).grid() =~= old(self).grid().update(index as int, Field::Food),
            final(self).head == old(self).head,
            final(self).tail == old(self).tail,
            final(self).direction == old(self).direction,
            final(self).body == old(self).body,
            final(self).has_food(),
            final(self).live() == old(self).live(),
    {
        self.fields[index] = Field::Food;
        proof {
            let pre = *old(self);
            let post = *self;
            assert forall|i: int|
                0 <= i < AREA as int implies ((#[trigger] post.grid()[i]) is Border
                <==> is_border_cell(i)) by {
                assert(pre.grid()[i] is Border <==> is_border_cell(i));
            }
            assert forall|i: int|
                0 <= i < AREA as int && (#[trigger] post.grid()[i]) is Head implies i
                == post.spec_head() by {
                assert(pre.grid()[i] is Head);
            }
            if post.live() {
                let b = post.spec_body();
                assert forall|i: int|
                    0 <= i < AREA as int && (#[trigger] post.grid()[i]) is Tail implies exists|
                    k: int,
                |
                    0 <= k < b.len() - 1 && b[k] == i by {
                    assert(pre.grid()[i] is Tail);
                }
                assert(post.chain_ok());
            }
        }
    }

    /// Build a fresh game world: borders, head and one body segment as in
    /// `new_unseeded`, plus one food cell drawn at random among the empty
    /// cells.
    pub fn new() -> (w: World)
        ensures
            w.wf(),
            w.live(),
            w.has_food(),
            w.head == START_HEAD,
            w.tail == START_HEAD + 1,
            w.direction == -1i32,
            w.spec_body().len() == 2,
            w.spec_body()[0] == START_HEAD as int + 1,
            w.spec_body()[1] == START_HEAD as int,
            exists|f: int|
                {
                    &&& 0 <= f < AREA as int
                    &&& initial_field(f) is Empty
                    &&& w.grid() =~= Seq::new(AREA as nat, |i: int| initial_field(i)).update(
                        f,
                        Field::Food,
                    )
                },
    {
        let mut w = World::new_unseeded();
        match w.random_empty() {
            Some(food) => {
                proof {
                    assert(initial_field(food as int) is Empty);
                }
                w.place_food(food);
                proof {
                    assert(w.grid() =~= Seq::new(AREA as nat, |i: int| initial_field(i)).update(
                        food as int,
                        Field::Food,
                    ));
                }
            },
            None => {
                proof {
                    assert(!is_border_cell(65));
                    assert(w.grid()[65] is Empty);
                    assert(false);
                }
            },
        }
        w
    }

    /// One simulation tick. On a frozen board nothing changes at all.
    /// Otherwise the head steps one cell along `direction` (a step into
    /// its own neck bounces to the opposite side), the old head cell
    /// becomes a body segment pointing at the new position, and the
    /// target cell decides the rest: an `Empty` cell lets the snake
    /// translate by one (the end of the tail is vacated), a `Food` cell
    /// grows the snake by one and food reappears on a random empty cell,
    /// and any other cell freezes the simulation for good, leaving no
    /// `Head` tag anywhere.
    pub fn update(&mut self)
        requires
            old(self).wf(),
        ensures
            final(self).wf(),
            final(self).direction == old(self).direction,
            !old(self).live() ==> *final(self) == *old(self),
            old(self).has_food() && !final(self).has_food() ==> (forall|i: int|
                0 <= i < AREA as int ==> !((#[trigger] final(self).grid()[i]) is Empty)),
            old(self).live() ==> ({
                let pre = *old(self);
                let c = pre.spec_candidate();
                &&& 0 <= c < AREA as int
                &&& c != pre.spec_head()
                &&& (pre.grid()[c] is Empty ==> ({
                    &&& final(self).grid() =~= pre.grid().update(
                        pre.spec_head(),
                        Field::Tail(c as usize),
                    ).update(c, Field::Head).update(pre.spec_tail(), Field::Empty)
                    &&& final(self).spec_head() == c
                    &&& final(self).spec_tail() == pre.spec_body()[1]
                    &&& final(self).spec_body() =~= pre.spec_body().subrange(
                        1,
                        pre.spec_body().len() as int,
                    ).push(c)
                    &&& final(self).live()
                }))
                &&& (pre.grid()[c] is Food ==> ({
                    let moved = pre.grid().update(pre.spec_head(), Field::Tail(c as usize)).update(
                        c,
                        Field::Head,
                    );
                    &&& final(self).spec_head() == c
                    &&& final(self).spec_tail() == pre.spec_tail()
                    &&& final(self).spec_body() =~= pre.spec_body().push(c)
                    &&& final(self).live()
                    &&& ({
                        ||| exists|f: int|
                            0 <= f < AREA as int && moved[f] is Empty && final(self).grid()
                                =~= moved.update(f, Field::Food)
                        ||| ((forall|i: int|
                            0 <= i < AREA as int ==> !((#[trigger] moved[i]) is Empty))
                            && final(self).grid() =~= moved)
                    })
                }))
                &&& (pre.grid()[c] !is Empty && pre.grid()[c] !is Food ==> ({
                    &&& final(self).grid() =~= pre.grid().update(
                        pre.spec_head(),
                        Field::Tail(c as usize),
                    )
                    &&& final(self).head == pre.head
                    &&& final(self).tail == pre.tail
                    &&& !final(self).live()
                }))
            }),
    {
        match self.fields[self.head] {
            Field::Head => {},
            _ => { return; },
        }
        proof {
            assert(!is_border_cell(self.spec_head()));
            lemma_interior_bounds(self.spec_head());
        }
        let mut new_head: usize = ((self.head as i32) + self.direction) as usize;
        match self.fields[new_head] {
            Field::Tail(next) => {
                if next == self.head {
                    new_head = ((self.head as i32) - self.direction) as usize;
                }
            },
            _ => {},
        }
        proof {
            assert(new_head as int == old(self).spec_candidate());
            assert(new_head as int != old(self).spec_head());
            assert(new_head < AREA);
        }
        self.fields[self.head] = Field::Tail(new_head);
        match self.fields[new_head] {
            Field::Empty => {
                self.fields[new_head] = Field::Head;
                self.head = new_head;
                proof {
                    let b = old(self).spec_body();
                    assert(b[0] != new_head as int && b[0] != old(self).spec_head());
                    assert(self.fields@[self.spec_tail()] == Field::Tail(b[1] as usize));
                }
                match self.fields[self.tail] {
                    Field::Tail(new_tail) => {
                        self.fields[self.tail] = Field::Empty;
                        self.tail = new_tail;
                    },
                    _ => {},
                }
                self.body = Ghost(
                    old(self).body@.subrange(1, old(self).body@.len() as int).push(
                        new_head as int,
                    ),
                );
                proof {
                    lemma_translate_wf(*old(self), *self, new_head as int);
                }
            },
            Field::Food => {
                self.fields[new_head] = Field::Head;
                self.head = new_head;
                self.body = Ghost(old(self).body@.push(new_head as int));
                proof {
                    lemma_grow_wf(*old(self), *self, new_head as int);
                }
                match self.random_empty() {
                    Some(f) => { self.place_food(f); },
                    None => {},
                }
            },
            _ => {
                proof {
                    lemma_freeze_wf(*old(self), *self, new_head as int);
                }
            },
        }
    }
}

/// A tick that moves the head onto an `Empty` cell and vacates the end
/// of the tail keeps the world invariant: the body chain drops its first
/// element and gains the new head cell, and food stays where it was.
proof fn lemma_translate_wf(pre: World, post: World, c: int)
    requires
        pre.wf(),
        pre.live(),
        0 <= c < AREA as int,
        c != pre.spec_head(),
        pre.grid()[c] is Empty,
        post.grid() == pre.grid().update(pre.spec_head(), Field::Tail(c as usize)).update(
            c,
            Field::Head,
        ).update(pre.spec_tail(), Field::Empty),
        post.spec_head() == c,
        post.spec_tail() == pre.spec_body()[1],
        post.direction == pre.direction,
        post.spec_body() == pre.spec_body().subrange(1, pre.spec_body().len() as int).push(c),
    ensures
        post.wf(),
        post.live(),
        pre.has_food() ==> post.has_food(),
{
    let b = pre.spec_body();
    let l = b.len() as int;
    let h = pre.spec_head();
    let t0 = pre.spec_tail();
    let b2 = post.spec_body();
    assert(b[0] == t0 && b[l - 1] == h);
    assert(pre.grid()[t0] == Field::Tail(b[1] as usize));
    assert(c != t0 && h != t0);
    assert forall|i: int|
        0 <= i < AREA as int implies ((#[trigger] post.grid()[i]) is Border <==> is_border_cell(
        i,
    )) by {
        assert(pre.grid()[i] is Border <==> is_border_cell(i));
    }
    assert forall|i: int|
        0 <= i < AREA as int && (#[trigger] post.grid()[i]) is Head implies i
        == post.spec_head() by {
        if i != h && i != c && i != t0 {
            assert(pre.grid()[i] is Head);
        }
    }
    assert forall|i: int, j: int|
        0 <= i < AREA as int && 0 <= j < AREA as int && (#[trigger] post.grid()[i]) is Food && (
        #[trigger] post.grid()[j]) is Food implies i == j by {
        assert(pre.grid()[i] is Food && pre.grid()[j] is Food);
    }
    assert(b2.len() == l);
    assert(b2[0] == b[1]);
    assert(b2[l - 1] == c);
    assert forall|k: int| 0 <= k < l implies 0 <= #[trigger] b2[k] < AREA as int by {
        if k < l - 1 {
            assert(b2[k] == b[k + 1]);
        } else {
            assert(b2[k] == c);
        }
    }
    assert forall|k: int|
        0 <= k < l - 1 implies post.grid()[#[trigger] b2[k]] == Field::Tail(
        b2[k + 1] as usize,
    ) by {
        if k < l - 2 {
            assert(b2[k] == b[k + 1] && b2[k + 1] == b[k + 2]);
            assert(pre.grid()[b[k + 1]] == Field::Tail(b[k + 2] as usize));
            assert(b[k + 1] != b[l - 1] && b[k + 1] != b[0]);
            assert(b[k + 1] != c);
        } else {
            assert(b2[k] == b[l - 1] && b2[k + 1] == c);
        }
    }
    assert forall|k1: int, k2: int| 0 <= k1 < k2 < l implies b2[k1] != b2[k2] by {
        if k2 < l - 1 {
            assert(b2[k1] == b[k1 + 1] && b2[k2] == b[k2 + 1]);
            assert(b[k1 + 1] != b[k2 + 1]);
        } else {
            assert(b2[k2] == c && b2[k1] == b[k1 + 1]);
            if k1 + 1 < l - 1 {
                assert(pre.grid()[b[k1 + 1]] is Tail);
            } else {
                assert(pre.grid()[b[k1 + 1]] is Head);
            }
        }
    }
    assert forall|i: int|
        0 <= i < AREA as int && (#[trigger] post.grid()[i]) is Tail implies exists|k: int|
        0 <= k < b2.len() - 1 && b2[k] == i by {
        if i == h {
            assert(b2[l - 2] == b[l - 1]);
            assert(0 <= l - 2 < b2.len() - 1 && b2[l - 2] == i);
        } else {
            assert(i != c && i != t0);
            assert(pre.grid()[i] is Tail);
            let k0 = choose|k: int| 0 <= k < l - 1 && b[k] == i;
            assert(b[k0] != b[0]);
            assert(k0 != 0);
            assert(b2[k0 - 1] == b[k0]);
            assert(0 <= k0 - 1 < b2.len() - 1 && b2[k0 - 1] == i);
        }
    }
    assert(post.live());
    assert(post.chain_ok());
    assert(post.wf());
    if pre.has_food() {
        let fi = choose|i: int|
            0 <= i < pre.grid().len() && #[trigger] pre.grid()[i] is Food;
        assert(post.grid()[fi] is Food);
    }
}

/// A tick that moves the head onto the food cell keeps the world
/// invariant: the body chain gains the new head cell and nothing is
/// vacated, and the food is gone until it is placed again.
proof fn lemma_grow_wf(pre: World, post: World, c: int)
    requires
        pre.wf(),
        pre.live(),
        0 <= c < AREA as int,
        c != pre.spec_head(),
        pre.grid()[c] is Food,
        post.grid() == pre.grid().update(pre.spec_head(), Field::Tail(c as usize)).update(
            c,
            Field::Head,
        ),
        post.spec_head() == c,
        post.tail == pre.tail,
        post.direction == pre.direction,
        post.spec_body() == pre.spec_body().push(c),
    ensures
        post.wf(),
        post.live(),
        !post.has_food(),
{
    let b = pre.spec_body();
    let l = b.len() as int;
    let h = pre.spec_head();
    let b2 = post.spec_body();
    assert(b[0] == pre.spec_tail() && b[l - 1] == h);
    assert forall|i: int|
        0 <= i < AREA as int implies ((#[trigger] post.grid()[i]) is Border <==> is_border_cell(
        i,
    )) by {
        assert(pre.grid()[i] is Border <==> is_border_cell(i));
    }
    assert forall|i: int|
        0 <= i < AREA as int && (#[trigger] post.grid()[i]) is Head implies i
        == post.spec_head() by {
        if i != h && i != c {
            assert(pre.grid()[i] is Head);
        }
    }
    assert forall|i: int| 0 <= i < AREA as int implies !((#[trigger] post.grid()[i]) is Food) by {
        if i != h && i != c && pre.grid()[i] is Food {
            assert(pre.grid()[c] is Food);
            assert(i == c);
        }
    }
    assert(b2.len() == l + 1);
    assert forall|k: int| 0 <= k < l + 1 implies 0 <= #[trigger] b2[k] < AREA as int by {
        if k < l {
            assert(b2[k] == b[k]);
        } else {
            assert(b2[k] == c);
        }
    }
    assert forall|k: int|
        0 <= k < l implies post.grid()[#[trigger] b2[k]] == Field::Tail(b2[k + 1] as usize) by {
        if k < l - 1 {
            assert(b2[k] == b[k] && b2[k + 1] == b[k + 1]);
            assert(pre.grid()[b[k]] == Field::Tail(b[k + 1] as usize));
            assert(b[k] != b[l - 1]);
            assert(b[k] != c);
        } else {
            assert(b2[k] == b[l - 1] && b2[k + 1] == c);
        }
    }
    assert forall|k1: int, k2: int| 0 <= k1 < k2 < l + 1 implies b2[k1] != b2[k2] by {
        if k2 < l {
            assert(b2[k1] == b[k1] && b2[k2] == b[k2]);
            assert(b[k1] != b[k2]);
        } else {
            assert(b2[k2] == c && b2[k1] == b[k1]);
            if k1 < l - 1 {
                assert(pre.grid()[b[k1]] is Tail);
            } else {
                assert(pre.grid()[b[k1]] is Head);
            }
        }
    }
    assert forall|i: int|
        0 <= i < AREA as int && (#[trigger] post.grid()[i]) is Tail implies exists|k: int|
        0 <= k < b2.len() - 1 && b2[k] == i by {
        if i == h {
            assert(0 <= l - 1 < b2.len() - 1 && b2[l - 1] == i);
        } else {
            assert(i != c);
            assert(pre.grid()[i] is Tail);
            let k0 = choose|k: int| 0 <= k < l - 1 && b[k] == i;
            assert(0 <= k0 < b2.len() - 1 && b2[k0] == i);
        }
    }
    assert(post.live());
    assert(post.chain_ok());
    assert(post.wf());
}

/// A tick whose target cell is neither `Empty` nor `Food` overwrites the
/// head tag with a body segment and nothing else: no cell is tagged
/// `Head` any more, the invariant still holds, and food stays put.
proof fn lemma_freeze_wf(pre: World, post: World, c: int)
    requires
        pre.wf(),
        pre.live(),
        0 <= c < AREA as int,
        c != pre.spec_head(),
        !(pre.grid()[c] is Empty),
        !(pre.grid()[c] is Food),
        post.grid() == pre.grid().update(pre.spec_head(), Field::Tail(c as usize)),
        post.head == pre.head,
        post.tail == pre.tail,
        post.direction == pre.direction,
    ensures
        post.wf(),
        !post.live(),
        pre.has_food() ==> post.has_food(),
{
    let h = pre.spec_head();
    assert forall|i: int|
        0 <= i < AREA as int implies ((#[trigger] post.grid()[i]) is Border <==> is_border_cell(
        i,
    )) by {
        assert(pre.grid()[i] is Border <==> is_border_cell(i));
    }
    assert forall|i: int|
        0 <= i < AREA as int && (#[trigger] post.grid()[i]) is Head implies i
        == post.spec_head() by {
        if i != h {
            assert(pre.grid()[i] is Head);
        }
    }
    assert forall|i: int, j: int|
        0 <= i < AREA as int && 0 <= j < AREA as int && (#[trigger] post.grid()[i]) is Food && (
        #[trigger] post.grid()[j]) is Food implies i == j by {
        assert(pre.grid()[i] is Food && pre.grid()[j] is Food);
    }
    assert(!post.live());
    assert(post.wf());
    if pre.has_food() {
        let fi = choose|i: int|
            0 <= i < pre.grid().len() && #[trigger] pre.grid()[i] is Food;
        assert(post.grid()[fi] is Food);
    }
}

/// Chain integrity: while the simulation is live, following the
/// `Tail(next)` pointers from `tail` reaches the cell tagged `Head` at
/// `head` without revisiting any cell, in at most as many steps as the
/// board has cells. The ghost body chain lists exactly those steps.
pub proof fn lemma_chain_integrity(w: World)
    requires
        w.wf(),
        w.live(),
    ensures
        w.grid()[w.spec_head()] is Head,
        w.spec_body().len() >= 2,
        w.spec_body().len() <= AREA as int,
        w.spec_body()[0] == w.spec_tail(),
        w.spec_body()[w.spec_body().len() - 1] == w.spec_head(),
        forall|k: int|
            0 <= k < w.spec_body().len() - 1 ==> w.grid()[#[trigger] w.spec_body()[k]]
                == Field::Tail(w.spec_body()[k + 1] as usize),
        w.spec_body().no_duplicates(),
{
    let b = w.spec_body();
    assert forall|i: int, j: int|
        0 <= i < b.len() && 0 <= j < b.len() && i != j implies b[i] != b[j] by {
        if i < j {
            assert(b[i] != b[j]);
        } else {
            assert(b[j] != b[i]);
        }
    }
    assert(b.no_duplicates());
    b.unique_seq_to_set();
    lemma_int_range(0, AREA as int);
    assert forall|x: int| b.to_set().contains(x) implies set_int_range(
        0,
        AREA as int,
    ).contains(x) by {
        let k = choose|k: int| 0 <= k < b.len() && b[k] == x;
        assert(0 <= b[k] < AREA as int);
    }
    lemma_len_subset(b.to_set(), set_int_range(0, AREA as int));
}

/// Translation without food: when a tick drops the first element of the
/// body chain and appends a cell that was not on the body, the body
/// length is unchanged and the occupied cells are the old ones with the
/// vacated tail end swapped for the new head cell. With `update`'s
/// contract for a tick onto an `Empty` cell this pins the whole move:
/// same length, same cells but for one step forward.
pub proof fn lemma_translation_shifts_body(pre: World, post: World, c: int)
    requires
        pre.wf(),
        pre.live(),
        0 <= c < AREA as int,
        pre.grid()[c] is Empty,
        post.spec_body() == pre.spec_body().subrange(1, pre.spec_body().len() as int).push(c),
    ensures
        post.spec_body().len() == pre.spec_body().len(),
        post.spec_body().to_set() =~= pre.spec_body().to_set().remove(pre.spec_tail()).insert(c),
{
    let b = pre.spec_body();
    let b2 = post.spec_body();
    let l = b.len() as int;
    let t0 = pre.spec_tail();
    assert(b[0] == t0);
    assert forall|k: int| 0 <= k < b.len() implies b[k] != c by {
        if k < l - 1 {
            assert(pre.grid()[b[k]] is Tail);
        } else {
            assert(pre.grid()[b[k]] is Head);
        }
    }
    assert forall|x: int| b2.to_set().contains(x) implies pre.spec_body().to_set().remove(
        t0,
    ).insert(c).contains(x) by {
        let k = choose|k: int| 0 <= k < b2.len() && b2[k] == x;
        if k < l - 1 {
            assert(b[k + 1] == x);
            assert(b.contains(x));
            assert(b[k + 1] != b[0]);
        } else {
            assert(x == c);
        }
    }
    assert forall|x: int| pre.spec_body().to_set().remove(t0).insert(c).contains(
        x,
    ) implies b2.to_set().contains(x) by {
        if x == c {
            assert(b2[l - 1] == x);
            assert(b2.contains(x));
        } else {
            let k = choose|k: int| 0 <= k < b.len() && b[k] == x;
            assert(k != 0);
            assert(b2[k - 1] == x);
            assert(b2.contains(x));
        }
    }
}

/// Reversing into the neck is tolerated: when the cell one step along
/// `direction` from the head is the body segment immediately behind the
/// head, the tick's target is the cell on the opposite side of the head,
/// never the neck itself.
pub proof fn lemma_neck_reversal(w: World)
    requires
        w.wf(),
        w.live(),
        w.spec_head() + w.direction as int == w.spec_body()[w.spec_body().len() - 2],
    ensures
        w.spec_candidate() == w.spec_head() - w.direction as int,
        w.spec_candidate() != w.spec_body()[w.spec_body().len() - 2],
{
    let b = w.spec_body();
    let l = b.len() as int;
    let neck = b[l - 2];
    assert(w.grid()[neck] == Field::Tail(b[l - 1] as usize));
    assert(b[l - 1] == w.spec_head());
    assert(0 <= neck < AREA as int);
}

/// On a frozen board no cell at all is tagged `Head`: the freeze is
/// total, not merely a stale `head` index.
pub proof fn lemma_frozen_no_head(w: World)
    requires
        w.wf(),
        !w.live(),
    ensures
        forall|i: int| 0 <= i < AREA as int ==> !((#[trigger] w.grid()[i]) is Head),
{
    assert forall|i: int| 0 <= i < AREA as int implies !((#[trigger] w.grid()[i]) is Head) by {
        if w.grid()[i] is Head {
            assert(i == w.spec_head());
        }
    }
}

/// While the simulation is live and food is on the board, exactly one
/// cell is tagged `Head` and exactly one holds `Food`.
pub proof fn lemma_one_head_one_food(w: World)
    requires
        w.wf(),
        w.live(),
        w.has_food(),
    ensures
        exists|i: int| 0 <= i < AREA as int && (#[trigger] w.grid()[i]) is Head,
        forall|i: int, j: int|
            0 <= i < AREA as int && 0 <= j < AREA as int && (#[trigger] w.grid()[i]) is Head && (
            #[trigger] w.grid()[j]) is Head ==> i == j,
        exists|i: int| 0 <= i < AREA as int && (#[trigger] w.grid()[i]) is Food,
        forall|i: int, j: int|
            0 <= i < AREA as int && 0 <= j < AREA as int && (#[trigger] w.grid()[i]) is Food && (
            #[trigger] w.grid()[j]) is Food ==> i == j,
{
    assert(0 <= w.spec_head() < AREA as int && w.grid()[w.spec_head()] is Head);
    let fi = choose|i: int| 0 <= i < w.grid().len() && #[trigger] w.grid()[i] is Food;
    assert(0 <= fi < AREA as int && w.grid()[fi] is Food);
}

} // verus!
