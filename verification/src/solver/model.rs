use super::term::Env;
use vstd::prelude::*;

verus! {

/// A concrete assignment to the unknowns of expressions: a value for each
/// symbol and a byte for each cell of the fresh arrays. What it does not
/// name is zero.
#[derive(Debug, PartialEq, Eq)]
pub struct Model {
    symbols: Vec<(u64, u64)>,
    cells: Vec<(u64, u64, u8)>,
}

/// The symbol values that a list of bindings gives; of two bindings for
/// one symbol the later counts.
pub open spec fn symbols_of(bindings: Seq<(u64, u64)>) -> Map<u64, nat>
    decreases bindings.len(),
{
    if bindings.len() == 0 {
        Map::empty()
    } else {
        symbols_of(bindings.drop_last()).insert(bindings.last().0, bindings.last().1 as nat)
    }
}

/// The cell contents that a list of bindings gives; of two bindings for
/// one cell the later counts.
pub open spec fn cells_of(bindings: Seq<(u64, u64, u8)>) -> Map<(u64, nat), nat>
    decreases bindings.len(),
{
    if bindings.len() == 0 {
        Map::empty()
    } else {
        cells_of(bindings.drop_last()).insert(
            (bindings.last().0, bindings.last().1 as nat),
            bindings.last().2 as nat,
        )
    }
}

/// The value that a list of bindings gives to symbol `id`.
pub open spec fn bound_symbol(bindings: Seq<(u64, u64)>, id: u64) -> nat {
    (Env { symbols: symbols_of(bindings), cells: Map::empty() }).symbol(id)
}

/// The content that a list of bindings gives to a cell.
pub open spec fn bound_cell(bindings: Seq<(u64, u64, u8)>, array: u64, at: u64) -> nat {
    (Env { symbols: Map::empty(), cells: cells_of(bindings) }).cell(array, at as nat)
}

impl View for Model {
    type V = Env;

    closed spec fn view(&self) -> Env {
        Env { symbols: symbols_of(self.symbols@), cells: cells_of(self.cells@) }
    }
}

/// No binding names a cell at an address above 64 bits.
pub proof fn lemma_cells_near(bindings: Seq<(u64, u64, u8)>, array: u64, at: nat)
    requires
        at > u64::MAX,
    ensures
        !cells_of(bindings).dom().contains((array, at)),
    decreases bindings.len(),
{
    if bindings.len() > 0 {
        lemma_cells_near(bindings.drop_last(), array, at);
    }
}

impl Clone for Model {
    fn clone(&self) -> (m: Self)
        ensures
            m@ == self@,
    {
        let mut symbols: Vec<(u64, u64)> = Vec::new();
        let mut i: usize = 0;
        while i < self.symbols.len()
            invariant
                i <= self.symbols.len(),
                symbols@ == self.symbols@.take(i as int),
            decreases self.symbols.len() - i,
        {
            symbols.push(self.symbols[i]);
            assert(symbols@ =~= self.symbols@.take(i + 1));
            i += 1;
        }
        let mut cells: Vec<(u64, u64, u8)> = Vec::new();
        let mut j: usize = 0;
        while j < self.cells.len()
            invariant
                j <= self.cells.len(),
                cells@ == self.cells@.take(j as int),
            decreases self.cells.len() - j,
        {
            cells.push(self.cells[j]);
            assert(cells@ =~= self.cells@.take(j + 1));
            j += 1;
        }
        assert(symbols@ =~= self.symbols@);
        assert(cells@ =~= self.cells@);
        Model { symbols, cells }
    }
}

impl Model {
    /// The assignment that names nothing: every unknown is zero.
    pub fn new() -> (m: Model)
        ensures
            m@ == Env::empty(),
    {
        Model { symbols: Vec::new(), cells: Vec::new() }
    }

    /// A cell at an address above 64 bits is one that the model does not
    /// name: it holds zero.
    pub proof fn lemma_far_cell(&self, array: u64, at: nat)
        requires
            at > u64::MAX,
        ensures
            self@.cell(array, at) == 0,
    {
        lemma_cells_near(self.cells@, array, at);
    }

    /// Gives symbol `id` the value `value`.
    pub fn set_symbol(&mut self, id: u64, value: u64)
        ensures
            final(self)@ == (Env {
                symbols: old(self)@.symbols.insert(id, value as nat),
                cells: old(self)@.cells,
            }),
    {
        self.symbols.push((id, value));
        assert(self.symbols@.drop_last() == old(self).symbols@);
    }

    /// Gives the cell at `at` of the fresh array `array` the content `value`.
    pub fn set_cell(&mut self, array: u64, at: u64, value: u8)
        ensures
            final(self)@ == (Env {
                symbols: old(self)@.symbols,
                cells: old(self)@.cells.insert((array, at as nat), value as nat),
            }),
    {
        self.cells.push((array, at, value));
        assert(self.cells@.drop_last() == old(self).cells@);
    }

    /// The value of symbol `id`.
    pub fn symbol(&self, id: u64) -> (v: u64)
        ensures
            v as nat == self@.symbol(id),
    {
        let mut i: usize = self.symbols.len();
        assert(self.symbols@.take(i as int) == self.symbols@);
        while i > 0
            invariant
                i <= self.symbols.len(),
                bound_symbol(self.symbols@, id) == bound_symbol(self.symbols@.take(i as int), id),
            decreases i,
        {
            proof {
                assert(self.symbols@.take(i as int).drop_last() == self.symbols@.take(i - 1));
            }
            i -= 1;
            if self.symbols[i].0 == id {
                return self.symbols[i].1;
            }
        }
        proof {
            assert(self.symbols@.take(0).len() == 0);
        }
        0
    }

    /// The content of the cell at `at` of the fresh array `array`.
    pub fn cell(&self, array: u64, at: u64) -> (v: u8)
        ensures
            v as nat == self@.cell(array, at as nat),
    {
        let mut i: usize = self.cells.len();
        assert(self.cells@.take(i as int) == self.cells@);
        while i > 0
            invariant
                i <= self.cells.len(),
                bound_cell(self.cells@, array, at) == bound_cell(
                    self.cells@.take(i as int),
                    array,
                    at,
                ),
            decreases i,
        {
            proof {
                assert(self.cells@.take(i as int).drop_last() == self.cells@.take(i - 1));
            }
            i -= 1;
            if self.cells[i].0 == array && self.cells[i].1 == at {
                return self.cells[i].2;
            }
        }
        proof {
            assert(self.cells@.take(0).len() == 0);
        }
        0
    }
}

} // verus!
