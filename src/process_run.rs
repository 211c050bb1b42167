//! A small CPU model: processes with a program of instructions and a
//! scheduling state, kept in a table keyed by process id. Ids are handed out
//! in order from `0`, so the table's keys are always `0..n`.

use vstd::prelude::*;
use std::collections::HashMap;
use crate::seed::seed;

verus! {

broadcast use vstd::std_specs::hash::group_hash_axioms;

/// The instruction that computes for one tick.
pub const DO_COMPUTE: &'static str = "cpu";

/// The instruction that starts an I/O.
pub const DO_IO: &'static str = "io";

/// The instruction that completes an I/O.
pub const DO_IO_DONE: &'static str = "io_done";

#[derive(Debug, PartialEq, Eq, Clone, Copy, Structural)]
pub enum ProcessState {
    Running,
    Ready,
    Blocked,
    Terminated,
}

pub struct ProcessStructure {
    pub proc_id: i32,
    pub proc_pc: usize,
    pub proc_code: Vec<&'static str>,
    pub proc_state: ProcessState,
}

pub struct Scheduler {
    pub proc_info: HashMap<i32, ProcessStructure>,
    pub curr_proc: i32,
    pub io_finish_time: HashMap<i32, i32>,
}

/// Number of processes among ids `0..n` of `m` whose state satisfies `f`.
pub open spec fn count_states(
    m: Map<i32, ProcessStructure>,
    n: int,
    f: spec_fn(ProcessState) -> bool,
) -> nat
    decreases n,
{
    if n <= 0 {
        0
    } else {
        count_states(m, n - 1, f) + if f(m[(n - 1) as i32].proc_state) {
            1nat
        } else {
            0nat
        }
    }
}

/// Not yet terminated.
pub open spec fn is_active(s: ProcessState) -> bool {
    s != ProcessState::Terminated
}

/// Ready to run or running.
pub open spec fn is_runnable(s: ProcessState) -> bool {
    s == ProcessState::Ready || s == ProcessState::Running
}

/// A decimal digit.
pub open spec fn is_digit(c: char) -> bool {
    '0' <= c && c <= '9'
}

/// The value of the decimal digits `s`.
pub open spec fn decimal(s: Seq<char>) -> nat
    decreases s.len(),
{
    if s.len() == 0 {
        0
    } else {
        decimal(s.drop_last()) * 10 + ((s.last() as u32) - ('0' as u32)) as nat
    }
}

/// A non-empty run of decimal digits whose value fits an `i32`.
pub open spec fn is_number(s: Seq<char>) -> bool {
    &&& s.len() > 0
    &&& forall|i: int| 0 <= i < s.len() ==> is_digit(#[trigger] s[i])
    &&& decimal(s) <= i32::MAX
}

/// `e` is where the first piece of `s` ends: at the first comma, or at the
/// end when there is none.
pub open spec fn ends_piece(s: Seq<char>, e: int) -> bool {
    &&& 0 <= e <= s.len()
    &&& e == s.len() || s[e] == ','
    &&& forall|j: int| 0 <= j < e ==> s[j] != ','
}

/// Where the first piece of `s` ends.
pub open spec fn piece_end(s: Seq<char>) -> int {
    choose|e: int| ends_piece(s, e)
}

/// A well-formed instruction: `c` and a count, or `i`.
pub open spec fn is_instruction(p: Seq<char>) -> bool {
    p.len() > 0 && (p[0] == 'i' || (p[0] == 'c' && is_number(p.skip(1))))
}

/// The code of one instruction: `c<n>` computes for `n` ticks, `i` does
/// one I/O.
pub open spec fn instruction_code(p: Seq<char>) -> Seq<&'static str> {
    if p[0] == 'c' {
        Seq::new(decimal(p.skip(1)), |_i: int| DO_COMPUTE)
    } else {
        seq![DO_IO, DO_IO_DONE]
    }
}

/// `s` is a comma-separated list of well-formed instructions.
pub open spec fn is_program(s: Seq<char>) -> bool
    decreases s.len(),
{
    let e = piece_end(s);
    &&& ends_piece(s, e)
    &&& is_instruction(s.take(e))
    &&& 0 <= e < s.len() ==> is_program(s.skip(e + 1))
}

/// The code of the program `s`: the code of its instructions in order.
pub open spec fn program_code(s: Seq<char>) -> Seq<&'static str>
    decreases s.len(),
{
    let e = piece_end(s);
    instruction_code(s.take(e)) + if 0 <= e < s.len() {
        program_code(s.skip(e + 1))
    } else {
        Seq::empty()
    }
}

/// `code` is `k` units, each a compute or an I/O with its completion.
pub open spec fn is_units(code: Seq<&'static str>, k: nat) -> bool
    decreases code.len(),
{
    if k == 0 {
        code.len() == 0
    } else if code.len() >= 1 && code.last() == DO_COMPUTE && is_units(code.drop_last(), (k - 1) as nat) {
        true
    } else {
        code.len() >= 2 && code[code.len() - 2] == DO_IO && code.last() == DO_IO_DONE
            && is_units(code.take(code.len() - 2), (k - 1) as nat)
    }
}

/// `k` splits `s` as `x:y` with two numbers.
pub open spec fn splits_at_colon(s: Seq<char>, k: int) -> bool {
    0 <= k < s.len() && s[k] == ':' && is_number(s.take(k)) && is_number(s.skip(k + 1))
}

/// `s` is `x:y`: `x` units of work, each a compute with chance `y`%.
pub open spec fn is_workload(s: Seq<char>) -> bool {
    exists|k: int| splits_at_colon(s, k)
}

/// The number of units of workload `s`.
pub open spec fn workload_units(s: Seq<char>) -> nat {
    decimal(s.take(choose|k: int| splits_at_colon(s, k)))
}

/// The chance, in percent, of workload `s`.
pub open spec fn workload_chance(s: Seq<char>) -> nat {
    decimal(s.skip((choose|k: int| splits_at_colon(s, k)) + 1))
}

/// `k` I/O units: each an I/O and its completion.
pub open spec fn io_units(k: nat) -> Seq<&'static str> {
    Seq::new(2 * k, |i: int| if i % 2 == 0 { DO_IO } else { DO_IO_DONE })
}

/// Whether a workload unit drawn as `draw` computes under chance `chance`
/// percent: `draw`, counted from `i32::MIN`, modulo 100 is below `chance`.
pub fn unit_is_compute(draw: i32, chance: i32) -> (r: bool)
    ensures
        r == ((draw as int - i32::MIN as int) % 100 < chance as int),
{
    let percent = (draw as i64 - i32::MIN as i64) % 100;
    percent < chance as i64
}

proof fn lemma_decimal_prefix(t: Seq<char>, k: int)
    requires
        0 <= k <= t.len(),
    ensures
        decimal(t.take(k)) <= decimal(t),
    decreases t.len(),
{
    if k < t.len() {
        assert(t.drop_last().take(k) =~= t.take(k));
        lemma_decimal_prefix(t.drop_last(), k);
    } else {
        assert(t.take(k) =~= t);
    }
}

/// The value of the digits of `s` in `lo..hi`.
fn read_number(s: &str, lo: usize, hi: usize) -> (r: i32)
    requires
        lo <= hi <= s@.len(),
        is_number(s@.subrange(lo as int, hi as int)),
    ensures
        r == decimal(s@.subrange(lo as int, hi as int)),
{
    let ghost t = s@.subrange(lo as int, hi as int);
    let mut v: i32 = 0;
    let mut i = lo;
    while i < hi
        invariant
            lo <= i <= hi <= s@.len(),
            t == s@.subrange(lo as int, hi as int),
            is_number(t),
            v == decimal(t.take(i - lo)),
        decreases hi - i,
    {
        let c = s.get_char(i);
        proof {
            assert(t[i - lo] == c);
            assert(t.take(i - lo + 1).drop_last() =~= t.take(i - lo));
            lemma_decimal_prefix(t, i - lo + 1);
        }
        v = v * 10 + ((c as u32) - ('0' as u32)) as i32;
        i += 1;
    }
    assert(t.take(hi - lo) =~= t);
    v
}

/// Where the first piece of `s` from `start` ends.
fn find_piece_end(s: &str, start: usize) -> (e: usize)
    requires
        start <= s@.len(),
    ensures
        start <= e <= s@.len(),
        ends_piece(s@.skip(start as int), e - start),
{
    let n = s.unicode_len();
    let mut e = start;
    while e < n
        invariant
            start <= e <= n == s@.len(),
            forall|j: int| start <= j < e ==> s@[j] != ',',
        ensures
            start <= e <= n,
            forall|j: int| start <= j < e ==> s@[j] != ',',
            e == n || s@[e as int] == ',',
        decreases n - e,
    {
        if s.get_char(e) == ',' {
            break;
        }
        e += 1;
    }
    let ghost t = s@.skip(start as int);
    assert forall|j: int| 0 <= j < e - start implies t[j] != ',' by {
        assert(t[j] == s@[start + j]);
    }
    if e < n {
        assert(t[e - start] == s@[e as int]);
    }
    e
}

proof fn lemma_piece_end_unique(s: Seq<char>, e: int)
    requires
        ends_piece(s, e),
    ensures
        piece_end(s) == e,
{
    let f = piece_end(s);
    assert(ends_piece(s, f));
    if f < e {
        assert(s[f] == ',');
    } else if e < f {
        assert(s[e] == ',');
    }
}

impl Scheduler {
    /// The table holds exactly the ids `0..n`, each under its own id.
    pub open spec fn wf(&self) -> bool {
        &&& forall|k: i32| #[trigger]
            self.proc_info@.contains_key(k) <==> 0 <= k < self.proc_info@.len()
        &&& forall|k: i32| #[trigger]
            self.proc_info@.contains_key(k) ==> self.proc_info@[k].proc_id == k
    }

    /// A scheduler with no processes.
    pub fn new() -> (r: Self)
        ensures
            r.wf(),
            r.proc_info@.len() == 0,
            r.curr_proc == 0,
    {
        let r = Scheduler { proc_info: HashMap::new(), curr_proc: 0, io_finish_time: HashMap::new() };
        assert(r.proc_info@ =~= Map::<i32, ProcessStructure>::empty());
        r
    }

    /// Puts `ps` under the id `ps.proc_id`, which is a new one or one in the
    /// table.
    fn store(&mut self, ps: ProcessStructure)
        requires
            old(self).wf(),
            0 <= ps.proc_id <= old(self).proc_info@.len(),
            ps.proc_id < i32::MAX,
        ensures
            final(self).wf(),
            final(self).proc_info@ == old(self).proc_info@.insert(ps.proc_id, ps),
            final(self).curr_proc == old(self).curr_proc,
            final(self).io_finish_time@ == old(self).io_finish_time@,
    {
        let ghost old_map = self.proc_info@;
        let id = ps.proc_id;
        self.proc_info.insert(id, ps);
        proof {
            if old_map.contains_key(id) {
                assert(self.proc_info@.dom() =~= old_map.dom());
            } else {
                assert(self.proc_info@.dom() =~= old_map.dom().insert(id));
            }
        }
    }

    /// Adds a ready process with an empty program and returns its id, the
    /// number of processes before it.
    pub fn new_process(&mut self) -> (r: i32)
        requires
            old(self).wf(),
            old(self).proc_info@.len() < i32::MAX,
        ensures
            final(self).wf(),
            r == old(self).proc_info@.len(),
            final(self).proc_info@.len() == old(self).proc_info@.len() + 1,
            final(self).proc_info@.contains_key(r),
            final(self).proc_info@[r].proc_id == r,
            final(self).proc_info@[r].proc_pc == 0,
            final(self).proc_info@[r].proc_code@ == Seq::<&'static str>::empty(),
            final(self).proc_info@[r].proc_state == ProcessState::Ready,
            forall|k: i32| k != r ==> #[trigger] final(self).proc_info@.contains_key(k)
                == old(self).proc_info@.contains_key(k),
            forall|k: i32| #[trigger] old(self).proc_info@.contains_key(k)
                ==> final(self).proc_info@[k] == old(self).proc_info@[k],
            final(self).curr_proc == old(self).curr_proc,
            final(self).io_finish_time@ == old(self).io_finish_time@,
    {
        let proc_id = self.proc_info.len() as i32;
        let ps = ProcessStructure {
            proc_id,
            proc_pc: 0,
            proc_code: Vec::new(),
            proc_state: ProcessState::Ready,
        };
        self.store(ps);
        proof {
            assert(!old(self).proc_info@.contains_key(proc_id));
        }
        proc_id
    }

    /// Number of processes.
    pub fn get_num_processes(&self) -> (r: usize)
        ensures
            r == self.proc_info@.len(),
    {
        self.proc_info.len()
    }

    /// Number of instructions in the program of process `pid`.
    pub fn get_num_instructions(&self, pid: i32) -> (r: usize)
        requires
            self.proc_info@.contains_key(pid),
        ensures
            r == self.proc_info@[pid].proc_code@.len(),
    {
        match self.proc_info.get(&pid) {
            Some(ps) => ps.proc_code.len(),
            None => 0,
        }
    }

    /// The state of process `pid`.
    pub fn state_of(&self, pid: i32) -> (r: ProcessState)
        requires
            self.proc_info@.contains_key(pid),
        ensures
            r == self.proc_info@[pid].proc_state,
    {
        match self.proc_info.get(&pid) {
            Some(ps) => ps.proc_state,
            None => ProcessState::Terminated,
        }
    }

    /// Number of processes that have not terminated.
    pub fn get_num_actives(&self) -> (r: usize)
        requires
            self.wf(),
            self.proc_info@.len() <= i32::MAX,
        ensures
            r == count_states(self.proc_info@, self.proc_info@.len() as int, |s| is_active(s)),
    {
        let n = self.proc_info.len();
        let mut result: usize = 0;
        let mut p: usize = 0;
        while p < n
            invariant
                self.wf(),
                n == self.proc_info@.len(),
                n <= i32::MAX,
                p <= n,
                result <= p,
                result == count_states(self.proc_info@, p as int, |s| is_active(s)),
            decreases n - p,
        {
            let state = self.state_of(p as i32);
            if state != ProcessState::Terminated {
                result += 1;
            }
            p += 1;
        }
        result
    }

    /// Number of processes that are ready or running.
    pub fn get_num_runnable(&self) -> (r: usize)
        requires
            self.wf(),
            self.proc_info@.len() <= i32::MAX,
        ensures
            r == count_states(self.proc_info@, self.proc_info@.len() as int, |s| is_runnable(s)),
    {
        let n = self.proc_info.len();
        let mut result: usize = 0;
        let mut p: usize = 0;
        while p < n
            invariant
                self.wf(),
                n == self.proc_info@.len(),
                n <= i32::MAX,
                p <= n,
                result <= p,
                result == count_states(self.proc_info@, p as int, |s| is_runnable(s)),
            decreases n - p,
        {
            let state = self.state_of(p as i32);
            if state == ProcessState::Ready || state == ProcessState::Running {
                result += 1;
            }
            p += 1;
        }
        result
    }
    /// Adds a ready process whose code is that of `program`, a
    /// comma-separated list of instructions (`c7,i,c1`), under the next id.
    pub fn load_program(&mut self, program: &str)
        requires
            old(self).wf(),
            old(self).proc_info@.len() < i32::MAX,
            is_program(program@),
        ensures
            final(self).wf(),
            final(self).proc_info@ == old(self).proc_info@.insert(
                old(self).proc_info@.len() as i32,
                final(self).proc_info@[old(self).proc_info@.len() as i32],
            ),
            final(self).proc_info@[old(self).proc_info@.len() as i32].proc_id == old(self).proc_info@.len(),
            final(self).proc_info@[old(self).proc_info@.len() as i32].proc_pc == 0,
            final(self).proc_info@[old(self).proc_info@.len() as i32].proc_code@ == program_code(program@),
            final(self).proc_info@[old(self).proc_info@.len() as i32].proc_state == ProcessState::Ready,
            final(self).curr_proc == old(self).curr_proc,
            final(self).io_finish_time@ == old(self).io_finish_time@,
    {
        let ghost s = program@;
        let pid = self.new_process();
        let ghost after_new = self.proc_info@;
        let n = program.unicode_len();
        let mut code: Vec<&'static str> = Vec::new();
        let mut start: usize = 0;
        assert(s.skip(0) =~= s);
        assert(code@ + program_code(s) =~= program_code(s));
        loop
            invariant_except_break
                is_program(s.skip(start as int)),
                code@ + program_code(s.skip(start as int)) == program_code(s),
            invariant
                s == program@,
                n == s.len(),
                start <= n,
            ensures
                code@ == program_code(s),
            decreases n - start,
        {
            let ghost rest = s.skip(start as int);
            let e = find_piece_end(program, start);
            proof {
                lemma_piece_end_unique(rest, e - start);
                assert(rest.take(e - start) =~= s.subrange(start as int, e as int));
            }
            let ghost before = code@;
            if program.get_char(start) == 'c' {
                proof {
                    assert(rest.take(e - start).skip(1) =~= s.subrange(start + 1, e as int));
                }
                let count = read_number(program, start + 1, e);
                let mut j: i32 = 0;
                while j < count
                    invariant
                        0 <= j <= count,
                        code@ == before + Seq::new(j as nat, |_i: int| DO_COMPUTE),
                    decreases count - j,
                {
                    code.push(DO_COMPUTE);
                    j += 1;
                    assert(code@ =~= before + Seq::new(j as nat, |_i: int| DO_COMPUTE));
                }
            } else {
                code.push(DO_IO);
                code.push(DO_IO_DONE);
            }
            assert(code@ == before + instruction_code(rest.take(e - start)));
            if e == n {
                assert(code@ =~= program_code(s));
                break;
            }
            proof {
                assert(rest.skip(e - start + 1) =~= s.skip(e + 1));
                assert(code@ + program_code(s.skip(e + 1)) =~= program_code(s));
            }
            start = e + 1;
        }
        let ps = ProcessStructure {
            proc_id: pid,
            proc_pc: 0,
            proc_code: code,
            proc_state: ProcessState::Ready,
        };
        self.store(ps);
        proof {
            assert(self.proc_info@ =~= old(self).proc_info@.insert(pid, self.proc_info@[pid]));
        }
    }

    /// Adds a ready process for workload `program`, written `x:y`: `x`
    /// units of work, each a compute with chance `y` percent (a random
    /// `i32` taken modulo 100 is below `y`) and otherwise an I/O and its
    /// completion, under the next id.
    pub fn load(&mut self, program: &str)
        requires
            old(self).wf(),
            old(self).proc_info@.len() < i32::MAX,
            is_workload(program@),
        ensures
            final(self).wf(),
            final(self).proc_info@ == old(self).proc_info@.insert(
                old(self).proc_info@.len() as i32,
                final(self).proc_info@[old(self).proc_info@.len() as i32],
            ),
            final(self).proc_info@[old(self).proc_info@.len() as i32].proc_id == old(self).proc_info@.len(),
            final(self).proc_info@[old(self).proc_info@.len() as i32].proc_pc == 0,
            is_units(final(self).proc_info@[old(self).proc_info@.len() as i32].proc_code@, workload_units(program@)),
            workload_chance(program@) >= 100 ==> final(self).proc_info@[old(self).proc_info@.len() as i32].proc_code@
                == Seq::new(workload_units(program@), |_i: int| DO_COMPUTE),
            workload_chance(program@) == 0 ==> final(self).proc_info@[old(self).proc_info@.len() as i32].proc_code@
                == io_units(workload_units(program@)),
            final(self).curr_proc == old(self).curr_proc,
            final(self).io_finish_time@ == old(self).io_finish_time@,
            final(self).proc_info@[old(self).proc_info@.len() as i32].proc_state == ProcessState::Ready,
    {
        let ghost s = program@;
        let pid = self.new_process();
        let n = program.unicode_len();
        let mut k: usize = 0;
        while k < n
            invariant
                s == program@,
                n == s.len(),
                k <= n,
                forall|j: int| 0 <= j < k ==> s[j] != ':',
            ensures
                k <= n,
                forall|j: int| 0 <= j < k ==> s[j] != ':',
                k == n || s[k as int] == ':',
            decreases n - k,
        {
            if program.get_char(k) == ':' {
                break;
            }
            k += 1;
        }
        proof {
            let k0 = choose|k0: int| splits_at_colon(s, k0);
            if k0 < k {
                assert(s[k0] == ':');
            } else if k < k0 {
                assert(s.take(k0)[k as int] == s[k as int]);
                assert(is_digit(s.take(k0)[k as int]));
            }
            assert(k0 == k);
            assert(s.take(k as int) =~= s.subrange(0, k as int));
            assert(s.skip(k + 1) =~= s.subrange(k + 1, n as int));
        }
        let units = read_number(program, 0, k);
        let chance = read_number(program, k + 1, n);
        let mut code: Vec<&'static str> = Vec::new();
        let mut j: i32 = 0;
        while j < units
            invariant
                0 <= j <= units,
                0 <= chance,
                is_units(code@, j as nat),
                chance >= 100 ==> code@ == Seq::new(j as nat, |_i: int| DO_COMPUTE),
                chance == 0 ==> code@ == io_units(j as nat),
            decreases units - j,
        {
            let ghost before = code@;
            if unit_is_compute(seed(), chance) {
                code.push(DO_COMPUTE);
                assert(code@.drop_last() =~= before);
                if chance >= 100 {
                    assert(code@ =~= Seq::new((j + 1) as nat, |_i: int| DO_COMPUTE));
                }
            } else {
                code.push(DO_IO);
                code.push(DO_IO_DONE);
                assert(code@.take(code@.len() - 2) =~= before);
                if chance == 0 {
                    assert(code@ =~= io_units((j + 1) as nat));
                }
            }
            j += 1;
        }
        let ps = ProcessStructure {
            proc_id: pid,
            proc_pc: 0,
            proc_code: code,
            proc_state: ProcessState::Ready,
        };
        self.store(ps);
        proof {
            assert(self.proc_info@ =~= old(self).proc_info@.insert(pid, self.proc_info@[pid]));
        }
    }
    /// `after` is `self` with process `pid` in state `st` and nothing else
    /// changed.
    pub open spec fn with_state(&self, after: &Self, pid: i32, st: ProcessState) -> bool {
        &&& after.proc_info@ == self.proc_info@.insert(pid, after.proc_info@[pid])
        &&& after.proc_info@[pid].proc_id == self.proc_info@[pid].proc_id
        &&& after.proc_info@[pid].proc_pc == self.proc_info@[pid].proc_pc
        &&& after.proc_info@[pid].proc_code@ == self.proc_info@[pid].proc_code@
        &&& after.proc_info@[pid].proc_state == st
    }

    fn set_state(&mut self, pid: i32, st: ProcessState)
        requires
            old(self).wf(),
            old(self).proc_info@.contains_key(pid),
        ensures
            final(self).wf(),
            old(self).with_state(final(self), pid, st),
            final(self).curr_proc == old(self).curr_proc,
    {
        let ghost old_map = self.proc_info@;
        match self.proc_info.remove(&pid) {
            Some(ps) => {
                let ps = ProcessStructure {
                    proc_id: ps.proc_id,
                    proc_pc: ps.proc_pc,
                    proc_code: ps.proc_code,
                    proc_state: st,
                };
                self.proc_info.insert(pid, ps);
                proof {
                    assert(self.proc_info@.dom() =~= old_map.dom());
                    assert(self.proc_info@ =~= old_map.insert(pid, self.proc_info@[pid]));
                }
            },
            None => {},
        }
    }

    /// Moves process `pid`, in state `expected`, to ready.
    pub fn move_to_ready(&mut self, pid: i32, expected: ProcessState)
        requires
            old(self).wf(),
            old(self).proc_info@.contains_key(pid),
            old(self).proc_info@[pid].proc_state == expected,
        ensures
            final(self).wf(),
            old(self).with_state(final(self), pid, ProcessState::Ready),
            final(self).curr_proc == old(self).curr_proc,
    {
        self.set_state(pid, ProcessState::Ready);
    }

    /// Moves the current process, in state `expected`, to running.
    pub fn move_to_running(&mut self, expected: ProcessState)
        requires
            old(self).wf(),
            old(self).proc_info@.contains_key(old(self).curr_proc),
            old(self).proc_info@[old(self).curr_proc].proc_state == expected,
        ensures
            final(self).wf(),
            old(self).with_state(final(self), old(self).curr_proc, ProcessState::Running),
            final(self).curr_proc == old(self).curr_proc,
    {
        let pid = self.curr_proc;
        self.set_state(pid, ProcessState::Running);
    }

    /// Moves the current process, in state `expected`, to terminated.
    pub fn move_to_done(&mut self, expected: ProcessState)
        requires
            old(self).wf(),
            old(self).proc_info@.contains_key(old(self).curr_proc),
            old(self).proc_info@[old(self).curr_proc].proc_state == expected,
        ensures
            final(self).wf(),
            old(self).with_state(final(self), old(self).curr_proc, ProcessState::Terminated),
            final(self).curr_proc == old(self).curr_proc,
    {
        let pid = self.curr_proc;
        self.set_state(pid, ProcessState::Terminated);
    }

    /// `after` is `self` once the first ready process with id in
    /// `start..end`, if any, has been made current and running.
    pub open spec fn switched_in(&self, after: &Self, start: int, end: int) -> bool {
        &&& (forall|i: i32| start <= i < end ==> self.proc_info@[i].proc_state
            != ProcessState::Ready) ==> *after == *self
        &&& (exists|i: i32| start <= i < end && self.proc_info@[i].proc_state
            == ProcessState::Ready) ==> {
            let c = after.curr_proc;
            &&& start <= c < end
            &&& self.proc_info@[c].proc_state == ProcessState::Ready
            &&& forall|i: i32| start <= i < c ==> self.proc_info@[i].proc_state
                != ProcessState::Ready
            &&& self.with_state(after, c, ProcessState::Running)
        }
    }

    /// Makes the first ready process with id in `start..end` current and
    /// running. Leaves everything as it was when there is none.
    pub fn state_ready_to_running(&mut self, start: i32, end: i32)
        requires
            old(self).wf(),
            0 <= start,
            end <= old(self).proc_info@.len(),
        ensures
            final(self).wf(),
            old(self).switched_in(final(self), start as int, end as int),
    {
        let mut i = start;
        while i < end
            invariant
                self.wf(),
                *self == *old(self),
                0 <= start <= i,
                end <= self.proc_info@.len(),
                forall|j: i32| start <= j < i ==> self.proc_info@[j].proc_state != ProcessState::Ready,
            decreases end - i,
        {
            if self.state_of(i) == ProcessState::Ready {
                self.curr_proc = i;
                self.move_to_running(ProcessState::Ready);
                return;
            }
            i += 1;
        }
    }
    /// Switches processes: when `pid` is not `-1`, makes ready process
    /// `pid` current and running; then makes running the first ready process
    /// after the current one, and then the first ready one up to and
    /// including the current one.
    pub fn next_proc(&mut self, pid: i32)
        requires
            old(self).wf(),
            old(self).proc_info@.len() <= i32::MAX,
            pid == -1 || (old(self).proc_info@.contains_key(pid)
                && old(self).proc_info@[pid].proc_state == ProcessState::Ready),
            pid == -1 ==> -1 <= old(self).curr_proc < old(self).proc_info@.len(),
        ensures
            final(self).wf(),
            exists|first: Scheduler, second: Scheduler|
                {
                    &&& first.wf()
                    &&& second.wf()
                    &&& if pid == -1 {
                        first == *old(self)
                    } else {
                        old(self).with_state(&first, pid, ProcessState::Running) && first.curr_proc
                            == pid
                    }
                    &&& first.switched_in(
                        &second,
                        first.curr_proc + 1,
                        first.proc_info@.len() as int,
                    )
                    &&& second.switched_in(final(self), 0, first.curr_proc + 1)
                },
    {
        if pid != -1 {
            self.curr_proc = pid;
            self.move_to_running(ProcessState::Ready);
        }
        let ghost first = *self;
        let curr = self.curr_proc + 1;
        let end = self.proc_info.len() as i32;
        self.state_ready_to_running(curr, end);
        let ghost second = *self;
        self.state_ready_to_running(0, curr);
        assert(first.switched_in(&second, first.curr_proc + 1, first.proc_info@.len() as int));
    }
}

} // verus!
