//! How the models relate to the values that programs see.
use crate::cpu::VCpu;
use crate::guest::Guest;
use vstd::prelude::*;

verus! {

impl VCpu {
    /// Law: the model of a vCPU is its registers, its program counter, its flag, its
    /// control registers and its count, as they stand.
    pub proof fn law_view(&self)
        ensures
            self@.regs.len() == 8,
            self@.cr.len() == 4,
            forall|r: int| 0 <= r < 8 ==> #[trigger] self@.regs[r] == self.regs[r],
            forall|r: int| 0 <= r < 4 ==> #[trigger] self@.cr[r] == self.cr[r],
            self@.pc == self.pc,
            self@.halted == self.halted,
            self@.retired == self.retired,
    {
    }
}

impl Guest {
    /// Law: the model of a guest is its parts, as they stand.
    pub proof fn law_view(&self)
        ensures
            self@.id == self.id,
            self@.name == self.name@,
            self@.vcpu == self.vcpu@,
            self@.page_table == self.page_table@,
            self@.program == self.program@,
            self@.console == self.console@,
            self@.state == self.state,
            self@.io_exits == self.io_exits,
            self@.cr_exits == self.cr_exits,
            self@.fault_exits == self.fault_exits,
    {
    }
}

} // verus!
