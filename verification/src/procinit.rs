//! The initial user stack of a process: where its strings, auxiliary
//! vector and pointer arrays go below the top of the stack.
use vstd::prelude::*;

verus! {

broadcast use vstd::std_specs::btree::group_btree_axioms, vstd::laws_cmp::group_laws_cmp;

pub struct ProcInit {
    pub args: Vec<Vec<u8>>,
    pub envs: Vec<Vec<u8>>,
    pub auxv: std::collections::BTreeMap<u8, usize>,
}

/// The size of a machine word in bytes.
pub open spec fn word_bytes() -> int {
    usize::BITS as int / 8
}

/// `sp` after each string of `s` in turn is pushed with its terminator,
/// modulo the word.
pub open spec fn push_strings(sp: usize, s: Seq<Vec<u8>>) -> usize
    decreases s.len(),
{
    if s.len() == 0 {
        sp
    } else {
        vstd::wrapping::usize_specs::wrapping_sub(push_strings(sp, s.drop_last()), (s.last()@.len() + 1) as usize)
    }
}

/// The length of the first argument, 0 when there is none.
pub open spec fn arg0_len(args: Seq<Vec<u8>>) -> int {
    if args.len() > 0 { args[0]@.len() as int } else { 0 }
}

/// The stack pointer once the first argument's copy and then the
/// environment and argument strings are pushed below `top`.
pub open spec fn strings_sp(args: Seq<Vec<u8>>, envs: Seq<Vec<u8>>, top: usize) -> usize {
    push_strings(push_strings((top - arg0_len(args) - 1) as usize, envs), args)
}

/// The bytes below the strings: the auxiliary vector of `naux` pairs with
/// its end pair, the environment and argument pointer arrays with their
/// ends, and the argument count.
pub open spec fn table_bytes(args: Seq<Vec<u8>>, envs: Seq<Vec<u8>>, naux: nat) -> int {
    (naux * 2 + 2) * word_bytes() + (envs.len() + 1) * word_bytes() + (args.len() + 1) * word_bytes() + word_bytes()
}

/// Every string length plus its terminator fits in a word, the first copy
/// fits below `top`, and the tables fit below the strings.
pub open spec fn stack_fits(args: Seq<Vec<u8>>, envs: Seq<Vec<u8>>, naux: nat, top: usize) -> bool {
    &&& top >= arg0_len(args) + 1
    &&& forall|i: int| 0 <= i < envs.len() ==> (#[trigger] envs[i])@.len() + 1 <= usize::MAX
    &&& forall|i: int| 0 <= i < args.len() ==> (#[trigger] args[i])@.len() + 1 <= usize::MAX
    &&& naux * 2 + 2 <= usize::MAX
    &&& (naux * 2 + 2) * word_bytes() <= usize::MAX
    &&& envs.len() + 1 <= usize::MAX
    &&& (envs.len() + 1) * word_bytes() <= usize::MAX
    &&& args.len() + 1 <= usize::MAX
    &&& (args.len() + 1) * word_bytes() <= usize::MAX
    &&& strings_sp(args, envs, top) >= table_bytes(args, envs, naux)
}

/// Where the stack pointer starts for a stack laid out from `top`.
pub open spec fn initial_sp(args: Seq<Vec<u8>>, envs: Seq<Vec<u8>>, naux: nat, top: usize) -> int {
    (strings_sp(args, envs, top) - table_bytes(args, envs, naux)) as int / 16 * 16
}

impl ProcInit {
    pub open spec fn arg0_len(&self) -> int {
        arg0_len(self.args@)
    }

    pub open spec fn strings_sp(&self, top: usize) -> usize {
        strings_sp(self.args@, self.envs@, top)
    }

    /// A start-up image with the given arguments and environment and no
    /// auxiliary entries.
    pub fn with_args(args: Vec<Vec<u8>>, envs: Vec<Vec<u8>>) -> (r: Self)
        ensures
            r.args@ == args@,
            r.envs@ == envs@,
            r.auxv@.len() == 0,
    {
        ProcInit { args, envs, auxv: std::collections::BTreeMap::new() }
    }

    pub open spec fn table_bytes(&self) -> int {
        table_bytes(self.args@, self.envs@, self.auxv@.len())
    }

    pub open spec fn fits_below(&self, top: usize) -> bool {
        stack_fits(self.args@, self.envs@, self.auxv@.len(), top)
    }

    /// Where the stack pointer starts: below the strings and tables laid
    /// out from `top`, rounded down to 16 bytes.
    pub fn push_at(&self, top: usize) -> (sp: usize)
        requires
            self.fits_below(top),
        ensures
            sp == (self.strings_sp(top) - self.table_bytes()) as int / 16 * 16,
    {
        let word = (usize::BITS / 8) as usize;
        let mut sp = top;
        let a0l = if self.args.len() > 0 { self.args[0].len() } else { 0 };
        sp = sp - (a0l + 1);
        let ghost sp0 = sp;
        let mut i: usize = 0;
        while i < self.envs.len()
            invariant
                i <= self.envs@.len(),
                forall|k: int| 0 <= k < self.envs@.len() ==> (#[trigger] self.envs@[k])@.len() + 1 <= usize::MAX,
                sp == push_strings(sp0, self.envs@.take(i as int)),
            decreases self.envs@.len() - i,
        {
            assert(self.envs@.take(i + 1).drop_last() =~= self.envs@.take(i as int));
            let el = self.envs[i].len();
            sp = sp.wrapping_sub(el + 1);
            i = i + 1;
        }
        assert(self.envs@.take(self.envs@.len() as int) =~= self.envs@);
        let ghost sp1 = sp;
        let mut j: usize = 0;
        while j < self.args.len()
            invariant
                j <= self.args@.len(),
                forall|k: int| 0 <= k < self.args@.len() ==> (#[trigger] self.args@[k])@.len() + 1 <= usize::MAX,
                sp == push_strings(sp1, self.args@.take(j as int)),
            decreases self.args@.len() - j,
        {
            assert(self.args@.take(j + 1).drop_last() =~= self.args@.take(j as int));
            let al = self.args[j].len();
            sp = sp.wrapping_sub(al + 1);
            j = j + 1;
        }
        assert(self.args@.take(self.args@.len() as int) =~= self.args@);
        assert(sp == self.strings_sp(top));
        let aux_pairs = self.auxv.len();
        let aux_bytes = (aux_pairs * 2 + 2) * word;
        sp = sp - aux_bytes;
        let env_ptrs_bytes = (self.envs.len() + 1) * word;
        sp = sp - env_ptrs_bytes;
        let arg_ptrs_bytes = (self.args.len() + 1) * word;
        sp = sp - arg_ptrs_bytes;
        sp = sp - word;
        let align = sp & 0xF;
        assert(align == sp % 16) by (bit_vector)
            requires
                align == sp & 0xF,
        ;
        if align != 0 {
            sp = sp - align;
        }
        sp
    }

    /// The bytes the strings and tables take.
    pub fn total_size(&self) -> (r: usize)
        requires
            strings_size(self.args@) + strings_size(self.envs@) + (self.auxv@.len() * 2 + 2 + self.args@.len() + 1
                + self.envs@.len() + 1 + 1) * word_bytes() <= usize::MAX,
        ensures
            r == strings_size(self.args@) + strings_size(self.envs@) + (self.auxv@.len() * 2 + 2 + self.args@.len()
                + 1 + self.envs@.len() + 1 + 1) * word_bytes(),
    {
        let word = (usize::BITS / 8) as usize;
        let mut sz: usize = 0;
        let mut i: usize = 0;
        proof {
            lemma_strings_size_prefix(self.args@, self.args@.len() as int);
            lemma_strings_size_prefix(self.envs@, self.envs@.len() as int);
        }
        while i < self.args.len()
            invariant
                i <= self.args@.len(),
                sz == strings_size(self.args@.take(i as int)),
                strings_size(self.args@) + strings_size(self.envs@) <= usize::MAX,
            decreases self.args@.len() - i,
        {
            proof {
                assert(self.args@.take(i + 1).drop_last() =~= self.args@.take(i as int));
                lemma_strings_size_prefix(self.args@, i + 1);
            }
            sz = sz + self.args[i].len() + 1;
            i = i + 1;
        }
        assert(self.args@.take(self.args@.len() as int) =~= self.args@);
        let mut j: usize = 0;
        while j < self.envs.len()
            invariant
                j <= self.envs@.len(),
                sz == strings_size(self.args@) + strings_size(self.envs@.take(j as int)),
                strings_size(self.args@) + strings_size(self.envs@) <= usize::MAX,
            decreases self.envs@.len() - j,
        {
            proof {
                assert(self.envs@.take(j + 1).drop_last() =~= self.envs@.take(j as int));
                lemma_strings_size_prefix(self.envs@, j + 1);
            }
            sz = sz + self.envs[j].len() + 1;
            j = j + 1;
        }
        assert(self.envs@.take(self.envs@.len() as int) =~= self.envs@);
        let ghost x: int = (self.auxv@.len() * 2 + 2 + self.args@.len() + 1 + self.envs@.len() + 1 + 1) as int;
        let ghost w: int = word_bytes();
        assert(w >= 4);
        assert(x * w <= usize::MAX);
        assert(x <= x * w) by (nonlinear_arith)
            requires
                w >= 4,
                x >= 0,
        ;
        let aux = self.auxv.len();
        let n = aux * 2 + 2 + self.args.len() + 1 + self.envs.len() + 1 + 1;
        sz = sz + n * word;
        sz
    }
}

/// The bytes the strings of `s` take with their terminators.
pub open spec fn strings_size(s: Seq<Vec<u8>>) -> nat
    decreases s.len(),
{
    if s.len() == 0 {
        0
    } else {
        strings_size(s.drop_last()) + s.last()@.len() + 1
    }
}

proof fn lemma_strings_size_prefix(s: Seq<Vec<u8>>, i: int)
    requires
        0 <= i <= s.len(),
    ensures
        strings_size(s.take(i)) <= strings_size(s),
    decreases s.len() - i,
{
    if i < s.len() {
        lemma_strings_size_prefix(s, i + 1);
        assert(s.take(i + 1).drop_last() =~= s.take(i));
    } else {
        assert(s.take(i) =~= s);
    }
}

} // verus!
