//! PCI configuration space: register addresses, the 16-bit views of the
//! 32-bit registers, and the bus scan for a device.  The scan is a state
//! machine: each step names the next configuration register to read, and
//! the caller performs the port I/O and hands the value back.

use vstd::prelude::*;

verus! {

/// A PCI function found during a scan.
#[derive(Clone, Copy)]
pub struct PciDevice {
    pub bus: u8,
    pub device: u8,
    pub function: u8,
    pub vendor_id: u16,
    pub device_id: u16,
    pub bar0: u32,
    pub irq_line: u8,
}

/// The value for CONFIG_ADDRESS naming a register: the enable bit, bus,
/// device (5 bits), function (3 bits) and the register offset aligned to
/// 4 bytes.
pub open spec fn pci_address_spec(bus: u8, device: u8, function: u8, offset: u8) -> u32 {
    (1u32 << 31u32) | ((bus as u32) << 16u32) | (((device & 0x1f) as u32) << 11u32)
        | (((function & 0x07) as u32) << 8u32) | ((offset as u32) & 0xfc)
}

pub fn pci_address(bus: u8, device: u8, function: u8, offset: u8) -> (r: u32)
    ensures
        r == pci_address_spec(bus, device, function, offset),
        r == 0x8000_0000u32 + (bus as u32) * 0x10000 + ((device & 0x1f) as u32) * 0x800
            + ((function & 0x07) as u32) * 0x100 + ((offset as u32) & 0xfc),
{
    let r = (1u32 << 31u32) | ((bus as u32) << 16u32) | (((device & 0x1f) as u32) << 11u32)
        | (((function & 0x07) as u32) << 8u32) | ((offset as u32) & 0xfc);
    let b = bus as u32;
    let d = (device & 0x1f) as u32;
    let f = (function & 0x07) as u32;
    let o = offset as u32;
    assert(d < 32) by (bit_vector)
        requires d == (device & 0x1f) as u32;
    assert(f < 8) by (bit_vector)
        requires f == (function & 0x07) as u32;
    assert(b < 256);
    assert(((1u32 << 31u32) | (b << 16u32) | (d << 11u32) | (f << 8u32) | (o & 0xfc))
        == 0x8000_0000u32 + b * 0x10000 + d * 0x800 + f * 0x100 + (o & 0xfc)) by (bit_vector)
        requires b < 256, d < 32, f < 8;
    r
}

/// The 16-bit register at `offset` within the 32-bit register value.
pub open spec fn config16_spec(val: u32, offset: u8) -> u16 {
    ((val >> shift_of(offset)) & 0xffff) as u16
}

/// The bit position of the 16-bit register at `offset`: 0 or 16.
pub open spec fn shift_of(offset: u8) -> u32 {
    ((offset & 2) as u32) << 3u32
}

fn shift16(offset: u8) -> (r: u32)
    ensures
        r == shift_of(offset),
        r == 0 || r == 16,
{
    let o2 = (offset & 2) as u32;
    assert(o2 == 0 || o2 == 2) by (bit_vector)
        requires o2 == (offset & 2) as u32;
    assert((o2 << 3u32) == 0 || (o2 << 3u32) == 16) by (bit_vector)
        requires o2 == 0 || o2 == 2;
    o2 << 3u32
}

pub fn config16_of(val: u32, offset: u8) -> (r: u16)
    ensures
        r == config16_spec(val, offset),
{
    let sh = shift16(offset);
    ((val >> sh) & 0xffff) as u16
}

/// The 32-bit register value with the 16-bit register at `offset`
/// replaced by `value`.
pub open spec fn config16_put_spec(old: u32, offset: u8, value: u16) -> u32 {
    let shift = shift_of(offset);
    (old & !(0xffffu32 << shift)) | ((value as u32) << shift)
}

pub fn config16_put(old: u32, offset: u8, value: u16) -> (r: u32)
    ensures
        r == config16_put_spec(old, offset, value),
{
    let shift = shift16(offset);
    (old & !(0xffffu32 << shift)) | ((value as u32) << shift)
}

/// Writing a 16-bit register and reading it back gives the value written.
pub proof fn lemma_config16_roundtrip(old: u32, offset: u8, value: u16)
    ensures
        config16_spec(config16_put_spec(old, offset, value), offset) == value,
{
    let s = shift_of(offset);
    let o2 = (offset & 2) as u32;
    assert(o2 == 0 || o2 == 2) by (bit_vector)
        requires o2 == (offset & 2) as u32;
    assert((o2 << 3u32) == 0 || (o2 << 3u32) == 16) by (bit_vector)
        requires o2 == 0 || o2 == 2;
    let v = value as u32;
    assert(v < 0x10000);
    if s == 0 {
        assert((((old & !(0xffffu32 << 0u32)) | (v << 0u32)) >> 0u32) & 0xffff == v) by (bit_vector)
            requires v < 0x10000;
    } else {
        assert((((old & !(0xffffu32 << 16u32)) | (v << 16u32)) >> 16u32) & 0xffff == v) by (bit_vector)
            requires v < 0x10000;
    }
}

/// A 16-bit configuration register write.
pub struct PciWrite16 {
    pub bus: u8,
    pub device: u8,
    pub function: u8,
    pub offset: u8,
    pub value: u16,
}

/// The write that turns on bus mastering for `dev`, given its command
/// register (offset 4): the same register with bit 2 set.
pub fn enable_bus_mastering(dev: &PciDevice, cmd: u16) -> (r: PciWrite16)
    ensures
        r.bus == dev.bus && r.device == dev.device && r.function == dev.function,
        r.offset == 4,
        r.value == cmd | 4,
{
    PciWrite16 { bus: dev.bus, device: dev.device, function: dev.function, offset: 4, value: cmd | 4 }
}

/// A step of the scan: read a register, or the outcome.
pub enum PciRequest {
    Read { bus: u8, device: u8, function: u8, offset: u8 },
    Found(PciDevice),
    NotFound,
}

/// A scan over every bus, device and function, in that order, for the
/// first function whose vendor and device ids match.  `pos` counts the
/// functions scanned (bus * 256 + device * 8 + function); `stage` is 0
/// while reading ids, 1 while reading BAR0, 2 while reading the interrupt
/// line, 3 once done.
pub struct PciScan {
    pub vendor_id: u16,
    pub device_id: u16,
    pub pos: u32,
    pub stage: u8,
    pub bar0: u32,
}

pub open spec fn pos_bus(pos: u32) -> u8 { (pos / 256) as u8 }
pub open spec fn pos_device(pos: u32) -> u8 { ((pos / 8) % 32) as u8 }
pub open spec fn pos_function(pos: u32) -> u8 { (pos % 8) as u8 }

pub open spec fn read_at(pos: u32, offset: u8) -> PciRequest {
    PciRequest::Read { bus: pos_bus(pos), device: pos_device(pos), function: pos_function(pos), offset }
}

/// Whether register 0 holds the ids looked for (a vendor id of 0xffff
/// means no function is there).
pub open spec fn ids_match(reg0: u32, vendor_id: u16, device_id: u16) -> bool {
    (reg0 & 0xffff) != 0xffff && (reg0 & 0xffff) == vendor_id as u32 && ((reg0 >> 16u32) & 0xffff) == device_id as u32
}

/// BAR0 without its flag bits: 2 for an I/O BAR, 4 for a memory BAR.
pub open spec fn bar_address(raw: u32) -> u32 {
    if raw & 1 != 0 { raw & 0xffff_fffc } else { raw & 0xffff_fff0 }
}

pub const PCI_FUNCTIONS: u32 = 65536;

fn request_at(pos: u32, offset: u8) -> (r: PciRequest)
    requires
        pos < PCI_FUNCTIONS,
    ensures
        r == read_at(pos, offset),
{
    PciRequest::Read { bus: (pos / 256) as u8, device: ((pos / 8) % 32) as u8, function: (pos % 8) as u8, offset }
}

impl PciScan {
    pub open spec fn wf(&self) -> bool {
        self.pos < PCI_FUNCTIONS && self.stage <= 3
    }

    /// Start a scan for a device: the first read is register 0 of bus 0,
    /// device 0, function 0.
    pub fn find_device(vendor_id: u16, device_id: u16) -> (r: (PciScan, PciRequest))
        ensures
            r.0.wf(),
            r.0.vendor_id == vendor_id && r.0.device_id == device_id,
            r.0.pos == 0 && r.0.stage == 0,
            r.0.bar0 == 0,
            r.0 == (PciScan { vendor_id, device_id, pos: 0, stage: 0, bar0: 0 }),
            r.1 == read_at(0, 0),
    {
        (PciScan { vendor_id, device_id, pos: 0, stage: 0, bar0: 0 }, request_at(0, 0))
    }

    /// Take the value of the register last asked for and say what comes
    /// next.
    pub fn step(&mut self, value: u32) -> (r: PciRequest)
        requires
            old(self).wf(),
        ensures
            final(self).wf(),
            (*final(self), r) == step_spec(*old(self), value),
            final(self).vendor_id == old(self).vendor_id,
            final(self).device_id == old(self).device_id,
            old(self).stage == 0 && ids_match(value, old(self).vendor_id, old(self).device_id) ==>
                final(self).stage == 1 && final(self).pos == old(self).pos && r == read_at(old(self).pos, 0x10),
            old(self).stage == 0 && !ids_match(value, old(self).vendor_id, old(self).device_id) ==> (
                if old(self).pos + 1 == PCI_FUNCTIONS {
                    final(self).stage == 3 && r is NotFound
                } else {
                    final(self).stage == 0 && final(self).pos == old(self).pos + 1 && r == read_at((old(self).pos + 1) as u32, 0)
                }),
            old(self).stage == 1 ==> final(self).stage == 2 && final(self).pos == old(self).pos
                && final(self).bar0 == bar_address(value) && r == read_at(old(self).pos, 0x3c),
            old(self).stage == 2 ==> final(self).stage == 3 && r == PciRequest::Found(PciDevice {
                bus: pos_bus(old(self).pos),
                device: pos_device(old(self).pos),
                function: pos_function(old(self).pos),
                vendor_id: old(self).vendor_id,
                device_id: old(self).device_id,
                bar0: old(self).bar0,
                irq_line: (value & 0xff) as u8,
            }),
            old(self).stage == 3 ==> final(self).stage == 3 && r is NotFound,
    {
        if self.stage == 0 {
            let lo = value & 0xffff;
            if lo != 0xffff && lo == self.vendor_id as u32 && ((value >> 16u32) & 0xffff) == self.device_id as u32 {
                self.stage = 1;
                return request_at(self.pos, 0x10);
            }
            if self.pos + 1 == PCI_FUNCTIONS {
                self.stage = 3;
                return PciRequest::NotFound;
            }
            self.pos = self.pos + 1;
            request_at(self.pos, 0)
        } else if self.stage == 1 {
            self.bar0 = if value & 1 != 0 { value & 0xffff_fffc } else { value & 0xffff_fff0 };
            self.stage = 2;
            request_at(self.pos, 0x3c)
        } else if self.stage == 2 {
            self.stage = 3;
            PciRequest::Found(PciDevice {
                bus: (self.pos / 256) as u8,
                device: ((self.pos / 8) % 32) as u8,
                function: (self.pos % 8) as u8,
                vendor_id: self.vendor_id,
                device_id: self.device_id,
                bar0: self.bar0,
                irq_line: (value & 0xff) as u8,
            })
        } else {
            PciRequest::NotFound
        }
    }
}

/// The device found at scan position `s.pos` once its interrupt line
/// register read `value`.
pub open spec fn found_at(s: PciScan, value: u32) -> PciDevice {
    PciDevice {
        bus: pos_bus(s.pos),
        device: pos_device(s.pos),
        function: pos_function(s.pos),
        vendor_id: s.vendor_id,
        device_id: s.device_id,
        bar0: s.bar0,
        irq_line: (value & 0xff) as u8,
    }
}

/// One step of the scan: the next state and request after the register
/// asked for read `value`.
pub open spec fn step_spec(s: PciScan, value: u32) -> (PciScan, PciRequest) {
    if s.stage == 0 {
        if ids_match(value, s.vendor_id, s.device_id) {
            (PciScan { stage: 1, ..s }, read_at(s.pos, 0x10))
        } else if s.pos + 1 == PCI_FUNCTIONS {
            (PciScan { stage: 3, ..s }, PciRequest::NotFound)
        } else {
            (PciScan { pos: (s.pos + 1) as u32, ..s }, read_at((s.pos + 1) as u32, 0))
        }
    } else if s.stage == 1 {
        (PciScan { bar0: bar_address(value), stage: 2, ..s }, read_at(s.pos, 0x3c))
    } else if s.stage == 2 {
        (PciScan { stage: 3, ..s }, PciRequest::Found(found_at(s, value)))
    } else {
        (s, PciRequest::NotFound)
    }
}

/// The register offset the scan asks for in state `s`.
pub open spec fn asked_offset(s: PciScan) -> u8 {
    if s.stage == 0 {
        0
    } else if s.stage == 1 {
        0x10
    } else {
        0x3c
    }
}

/// The outcome of a scan from `s` whose reads are answered by `cfg`
/// (register `offset` of the function at scan position `pos`), within
/// `n` steps; none while it still reads.
pub open spec fn run_scan(s: PciScan, cfg: spec_fn(u32, u8) -> u32, n: nat) -> Option<PciRequest>
    decreases n,
{
    if n == 0 {
        None
    } else {
        let (s2, r) = step_spec(s, cfg(s.pos, asked_offset(s)));
        if r is Read {
            run_scan(s2, cfg, (n - 1) as nat)
        } else {
            Some(r)
        }
    }
}

/// The first scan position from `p` on whose ids match.
pub open spec fn first_match(cfg: spec_fn(u32, u8) -> u32, vendor_id: u16, device_id: u16, p: int) -> Option<int>
    decreases PCI_FUNCTIONS - p,
{
    if p < 0 || p >= PCI_FUNCTIONS {
        None
    } else if ids_match(cfg(p as u32, 0), vendor_id, device_id) {
        Some(p)
    } else {
        first_match(cfg, vendor_id, device_id, p + 1)
    }
}

/// The device at the first matching position from `p` on, with its BAR0
/// and interrupt line, or not found: what a scan over every bus, device
/// and function in order finds.
pub open spec fn scan_outcome(cfg: spec_fn(u32, u8) -> u32, vendor_id: u16, device_id: u16, p: int) -> PciRequest {
    match first_match(cfg, vendor_id, device_id, p) {
        Some(q) => PciRequest::Found(PciDevice {
            bus: pos_bus(q as u32),
            device: pos_device(q as u32),
            function: pos_function(q as u32),
            vendor_id,
            device_id,
            bar0: bar_address(cfg(q as u32, 0x10)),
            irq_line: (cfg(q as u32, 0x3c) & 0xff) as u8,
        }),
        None => PciRequest::NotFound,
    }
}

proof fn lemma_run_from(s: PciScan, cfg: spec_fn(u32, u8) -> u32, n: nat)
    requires
        s.stage == 0,
        s.pos < PCI_FUNCTIONS,
        n >= 3 * (PCI_FUNCTIONS - s.pos),
    ensures
        run_scan(s, cfg, n) == Some(scan_outcome(cfg, s.vendor_id, s.device_id, s.pos as int)),
    decreases PCI_FUNCTIONS - s.pos,
{
    let v0 = cfg(s.pos, 0);
    if ids_match(v0, s.vendor_id, s.device_id) {
        let s1 = PciScan { stage: 1, ..s };
        let v1 = cfg(s.pos, 0x10);
        let s2 = PciScan { bar0: bar_address(v1), stage: 2, ..s1 };
        let v2 = cfg(s.pos, 0x3c);
        assert(run_scan(s, cfg, n) == run_scan(s1, cfg, (n - 1) as nat));
        assert(run_scan(s1, cfg, (n - 1) as nat) == run_scan(s2, cfg, (n - 2) as nat));
        assert(run_scan(s2, cfg, (n - 2) as nat) == Some(PciRequest::Found(found_at(s2, v2))));
    } else if s.pos + 1 == PCI_FUNCTIONS {
        assert(first_match(cfg, s.vendor_id, s.device_id, s.pos + 1) is None);
    } else {
        let s1 = PciScan { pos: (s.pos + 1) as u32, ..s };
        lemma_run_from(s1, cfg, (n - 1) as nat);
        assert(run_scan(s, cfg, n) == run_scan(s1, cfg, (n - 1) as nat));
    }
}

/// A scan started by `find_device` and driven by `step`, each read
/// answered from the configuration space `cfg`, ends within three steps
/// per function with the first function, in bus, device, function order,
/// whose vendor and device ids match, together with its BAR0 and
/// interrupt line; or with not found when none matches.
pub proof fn lemma_scan_finds_first(vendor_id: u16, device_id: u16, cfg: spec_fn(u32, u8) -> u32)
    ensures
        run_scan(PciScan { vendor_id, device_id, pos: 0, stage: 0, bar0: 0 }, cfg, (3 * PCI_FUNCTIONS) as nat)
            == Some(scan_outcome(cfg, vendor_id, device_id, 0)),
{
    lemma_run_from(PciScan { vendor_id, device_id, pos: 0, stage: 0, bar0: 0 }, cfg, (3 * PCI_FUNCTIONS) as nat);
}

} // verus!
