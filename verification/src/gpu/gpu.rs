use vstd::prelude::*;

verus! {

/// A handle naming one buffer on the GPU device.
///
/// The planner hands out handles in increasing order; the device runner maps
/// each handle to the real device buffer.
#[derive(Clone, Copy, PartialEq, Eq, Structural, Debug)]
pub struct BufferId(pub usize);

/// How a freshly created buffer is filled.
#[derive(Clone, Copy, PartialEq, Eq, Structural, Debug)]
pub enum Fill {
    /// Contents are undefined until a kernel writes them.
    Uninit,
    /// Every element is zero.
    Zeroed,
    /// The elements are supplied by the host (the caller's data).
    Host,
    /// Every element is drawn uniformly from `[-0.1, 0.1)` by the host.
    Random,
    /// Every element is the 32-bit float with the given bit pattern.
    Repeat(u32),
    /// The single element is the integer `n` converted to a 32-bit float.
    Count(usize),
}

/// The compute kernels (pipelines) of the device.
#[derive(Clone, Copy, PartialEq, Eq, Structural, Debug)]
pub enum Kernel {
    Matmul,
    Unary,
    Binary,
    Sum,
    SubRowMax,
    MeanBackward,
    SumBackward,
    SubRowMaxBackward,
    RowMean,
    RowMeanBackward,
    Gather,
    GatherBackward,
    BiasAdd,
    BiasAddBackward,
    Div,
    DivBackwardA,
    DivBackwardB,
    Update,
    Adam,
    Dropout,
}

/// The name of the device pipeline that runs a kernel.
pub open spec fn kernel_name(k: Kernel) -> Seq<char> {
    match k {
        Kernel::Matmul => "matmul"@,
        Kernel::Unary => "unary"@,
        Kernel::Binary => "binary"@,
        Kernel::Sum => "sum"@,
        Kernel::SubRowMax => "sub_row_max"@,
        Kernel::MeanBackward => "mean_backward"@,
        Kernel::SumBackward => "sum_backward"@,
        Kernel::SubRowMaxBackward => "sub_row_max_backward"@,
        Kernel::RowMean => "row_mean"@,
        Kernel::RowMeanBackward => "row_mean_backward"@,
        Kernel::Gather => "gather"@,
        Kernel::GatherBackward => "gather_backward"@,
        Kernel::BiasAdd => "bias_add"@,
        Kernel::BiasAddBackward => "bias_add_backward"@,
        Kernel::Div => "div"@,
        Kernel::DivBackwardA => "div_backward_a"@,
        Kernel::DivBackwardB => "div_backward_b"@,
        Kernel::Update => "update"@,
        Kernel::Adam => "adam"@,
        Kernel::Dropout => "dropout"@,
    }
}

impl Kernel {
    /// The name of the device pipeline that runs this kernel.
    pub fn name(&self) -> (r: &'static str)
        ensures
            r@ == kernel_name(*self),
    {
        match self {
            Kernel::Matmul => "matmul",
            Kernel::Unary => "unary",
            Kernel::Binary => "binary",
            Kernel::Sum => "sum",
            Kernel::SubRowMax => "sub_row_max",
            Kernel::MeanBackward => "mean_backward",
            Kernel::SumBackward => "sum_backward",
            Kernel::SubRowMaxBackward => "sub_row_max_backward",
            Kernel::RowMean => "row_mean",
            Kernel::RowMeanBackward => "row_mean_backward",
            Kernel::Gather => "gather",
            Kernel::GatherBackward => "gather_backward",
            Kernel::BiasAdd => "bias_add",
            Kernel::BiasAddBackward => "bias_add_backward",
            Kernel::Div => "div",
            Kernel::DivBackwardA => "div_backward_a",
            Kernel::DivBackwardB => "div_backward_b",
            Kernel::Update => "update",
            Kernel::Adam => "adam",
            Kernel::Dropout => "dropout",
        }
    }
}

/// The four 32-bit parameters handed to a kernel.
#[derive(Clone, Copy, PartialEq, Eq, Structural, Debug)]
pub struct Params(pub u32, pub u32, pub u32, pub u32);

/// The number of workgroups launched along each axis.
#[derive(Clone, Copy, PartialEq, Eq, Structural, Debug)]
pub struct Groups(pub u32, pub u32, pub u32);

/// One unit of device work, in the order the device must perform it.
#[derive(PartialEq, Eq, Debug)]
pub enum GpuCommand {
    /// Create buffer `buffer` holding `len` 32-bit floats, filled as `fill` says.
    Create { buffer: BufferId, len: usize, fill: Fill },
    /// Run `kernel` over the bound buffers (inputs first, then outputs, then the parameters).
    Dispatch {
        kernel: Kernel,
        inputs: Vec<BufferId>,
        outputs: Vec<BufferId>,
        params: Params,
        groups: Groups,
    },
    /// Copy the first `len` elements of `source` into `destination`.
    Copy { source: BufferId, destination: BufferId, len: usize },
    /// Set every element of `buffer` to zero.
    Clear { buffer: BufferId },
    /// The buffer is no longer used by the engine.
    Release { buffer: BufferId },
}

/// The spec-level image of a command: the same command with sequences in
/// place of vectors.
pub enum Cmd {
    Create { buffer: BufferId, len: usize, fill: Fill },
    Dispatch {
        kernel: Kernel,
        inputs: Seq<BufferId>,
        outputs: Seq<BufferId>,
        params: Params,
        groups: Groups,
    },
    Copy { source: BufferId, destination: BufferId, len: usize },
    Clear { buffer: BufferId },
    Release { buffer: BufferId },
}

impl View for GpuCommand {
    type V = Cmd;

    open spec fn view(&self) -> Cmd {
        match self {
            GpuCommand::Create { buffer, len, fill } => Cmd::Create { buffer: *buffer, len: *len, fill: *fill },
            GpuCommand::Dispatch { kernel, inputs, outputs, params, groups } => Cmd::Dispatch {
                kernel: *kernel,
                inputs: inputs@,
                outputs: outputs@,
                params: *params,
                groups: *groups,
            },
            GpuCommand::Copy { source, destination, len } => Cmd::Copy {
                source: *source,
                destination: *destination,
                len: *len,
            },
            GpuCommand::Clear { buffer } => Cmd::Clear { buffer: *buffer },
            GpuCommand::Release { buffer } => Cmd::Release { buffer: *buffer },
        }
    }
}

/// The spec-level image of a command queue.
pub open spec fn cmds(v: Seq<GpuCommand>) -> Seq<Cmd> {
    v.map_values(|c: GpuCommand| c@)
}

/// The next handle after `n`; the counter stops at the top of `usize`.
pub open spec fn next_handle(n: usize) -> usize {
    if n == usize::MAX { n } else { (n + 1) as usize }
}

/// The handle `k` allocations after `n`.
pub open spec fn nth_handle(n: usize, k: nat) -> usize
    decreases k,
{
    if k == 0 { n } else { next_handle(nth_handle(n, (k - 1) as nat)) }
}

/// Plans the work of the GPU device.
///
/// Every method records the device work that the matching device call
/// performs; the device runner drains the queue with `take_commands` and
/// performs it in order.
pub struct Gpu {
    /// The buffer that holds the single float `1.0`.
    pub one: BufferId,
    /// The handle the next created buffer receives.
    pub next_buffer: usize,
    /// The device work recorded and not yet taken.
    pub commands: Vec<GpuCommand>,
}

impl Gpu {
    /// The handle the next created buffer receives.
    pub open spec fn next_id(&self) -> usize {
        self.next_buffer
    }

    /// The device work recorded and not yet taken.
    pub open spec fn pending(&self) -> Seq<Cmd> {
        cmds(self.commands@)
    }

    /// A planner whose first command creates the constant-one buffer.
    pub fn new() -> (g: Gpu)
        ensures
            g.one == BufferId(0),
            g.next_id() == 1,
            g.pending() == seq![Cmd::Create { buffer: BufferId(0), len: 1, fill: Fill::Count(1) }],
    {
        let mut commands: Vec<GpuCommand> = Vec::new();
        commands.push(GpuCommand::Create { buffer: BufferId(0), len: 1, fill: Fill::Count(1) });
        let g = Gpu { one: BufferId(0), next_buffer: 1, commands };
        assert(g.pending() =~= seq![Cmd::Create { buffer: BufferId(0), len: 1, fill: Fill::Count(1) }]);
        g
    }

    fn record(&mut self, c: GpuCommand)
        ensures
            final(self).one == old(self).one,
            final(self).next_id() == old(self).next_id(),
            final(self).pending() == old(self).pending().push(c@),
    {
        self.commands.push(c);
        assert(cmds(self.commands@) =~= cmds(old(self).commands@).push(c@));
    }

    /// Creates a buffer of `len` floats filled as `fill` says.
    pub fn create_buffer(&mut self, len: usize, fill: Fill) -> (b: BufferId)
        ensures
            b == BufferId(old(self).next_id()),
            final(self).one == old(self).one,
            final(self).next_id() == next_handle(old(self).next_id()),
            final(self).pending() == old(self).pending().push(
                Cmd::Create { buffer: b, len, fill },
            ),
    {
        let b = BufferId(self.next_buffer);
        self.record(GpuCommand::Create { buffer: b, len, fill });
        if self.next_buffer < usize::MAX {
            self.next_buffer = self.next_buffer + 1;
        }
        b
    }

    /// A buffer of `len` floats uploaded from the host, filled as `fill` says.
    pub fn upload_buffer(&mut self, len: usize, fill: Fill) -> (b: BufferId)
        ensures
            b == BufferId(old(self).next_id()),
            final(self).one == old(self).one,
            final(self).next_id() == next_handle(old(self).next_id()),
            final(self).pending() == old(self).pending().push(
                Cmd::Create { buffer: b, len, fill },
            ),
    {
        self.create_buffer(len, fill)
    }

    /// A buffer of `len` zeros.
    pub fn zero_buffer(&mut self, len: usize) -> (b: BufferId)
        ensures
            b == BufferId(old(self).next_id()),
            final(self).one == old(self).one,
            final(self).next_id() == next_handle(old(self).next_id()),
            final(self).pending() == old(self).pending().push(
                Cmd::Create { buffer: b, len, fill: Fill::Zeroed },
            ),
    {
        self.create_buffer(len, Fill::Zeroed)
    }

    /// A buffer of `len` floats whose contents are not yet defined.
    pub fn empty_buffer(&mut self, len: usize) -> (b: BufferId)
        ensures
            b == BufferId(old(self).next_id()),
            final(self).one == old(self).one,
            final(self).next_id() == next_handle(old(self).next_id()),
            final(self).pending() == old(self).pending().push(
                Cmd::Create { buffer: b, len, fill: Fill::Uninit },
            ),
    {
        self.create_buffer(len, Fill::Uninit)
    }

    /// Copies the first `len` floats of `source` into `destination`.
    pub fn copy_buffer(&mut self, source: BufferId, destination: BufferId, len: usize)
        ensures
            final(self).one == old(self).one,
            final(self).next_id() == old(self).next_id(),
            final(self).pending() == old(self).pending().push(
                Cmd::Copy { source, destination, len },
            ),
    {
        self.record(GpuCommand::Copy { source, destination, len });
    }

    /// Sets every float of `buffer` to zero.
    pub fn clear_buffer(&mut self, buffer: BufferId)
        ensures
            final(self).one == old(self).one,
            final(self).next_id() == old(self).next_id(),
            final(self).pending() == old(self).pending().push(Cmd::Clear { buffer }),
    {
        self.record(GpuCommand::Clear { buffer });
    }

    /// Gives `buffer` back to the device.
    pub fn release(&mut self, buffer: BufferId)
        ensures
            final(self).one == old(self).one,
            final(self).next_id() == old(self).next_id(),
            final(self).pending() == old(self).pending().push(Cmd::Release { buffer }),
    {
        self.record(GpuCommand::Release { buffer });
    }

    /// Runs `kernel` on the device.
    pub fn dispatch(
        &mut self,
        kernel: Kernel,
        inputs: Vec<BufferId>,
        outputs: Vec<BufferId>,
        params: Params,
        groups: Groups,
    )
        ensures
            final(self).one == old(self).one,
            final(self).next_id() == old(self).next_id(),
            final(self).pending() == old(self).pending().push(
                Cmd::Dispatch { kernel, inputs: inputs@, outputs: outputs@, params, groups },
            ),
    {
        self.record(GpuCommand::Dispatch { kernel, inputs, outputs, params, groups });
    }

    /// Hands over the recorded work and empties the queue.
    pub fn take_commands(&mut self) -> (r: Vec<GpuCommand>)
        ensures
            cmds(r@) == old(self).pending(),
            final(self).pending() == Seq::<Cmd>::empty(),
            final(self).one == old(self).one,
            final(self).next_id() == old(self).next_id(),
    {
        let mut r: Vec<GpuCommand> = Vec::new();
        std::mem::swap(&mut r, &mut self.commands);
        assert(cmds(self.commands@) =~= Seq::<Cmd>::empty());
        r
    }
}

/// Buffers get distinct handles: the `j`-th and the `k`-th handle handed
/// out after `n` differ whenever `j < k`, unless the counter has reached the
/// top of `usize` by the `k`-th.
pub proof fn lemma_handles_distinct(n: usize, j: nat, k: nat)
    requires
        j < k,
        nth_handle(n, k) < usize::MAX,
    ensures
        nth_handle(n, j) != nth_handle(n, k),
{
    lemma_nth_handle_exact(n, k);
    lemma_nth_handle_exact(n, j);
}

/// Until the counter stops, the `k`-th handle after `n` is `n + k`; a handle
/// below the top comes only after smaller ones.
pub proof fn lemma_nth_handle_exact(n: usize, k: nat)
    ensures
        nth_handle(n, k) >= n,
        nth_handle(n, k) < usize::MAX ==> nth_handle(n, k) == n + k,
        forall|j: nat| j <= k ==> #[trigger] nth_handle(n, j) <= nth_handle(n, k),
    decreases k,
{
    if k > 0 {
        lemma_nth_handle_exact(n, (k - 1) as nat);
        assert forall|j: nat| j <= k implies #[trigger] nth_handle(n, j) <= nth_handle(n, k) by {
            if j < k {
                assert(nth_handle(n, j) <= nth_handle(n, (k - 1) as nat));
            }
        }
    }
}

} // verus!
