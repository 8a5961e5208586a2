//! Verified core logic of a small x86 hobby kernel: the machine-code
//! emitter, lexer and symbol table of its built-in compiler, string and
//! byte-order utilities, network packet logic, memory allocators and the
//! in-memory filesystem structures.

pub mod emit;
pub mod string;
pub mod lex;
pub mod sym;
pub mod net;
pub mod ipv4;
pub mod tcp;
pub mod udp;
pub mod icmp;
pub mod arp;
pub mod dns;
pub mod multiboot;
pub mod pmm;
pub mod heap;
pub mod parse;
pub mod rc;
pub mod vfs;
pub mod initrd;
pub mod cc;
pub mod elf;
pub mod thread;
pub mod keyboard;
pub mod pci;
pub mod sync;
pub mod idt;
pub mod fat16;
pub mod shell;
pub mod syscall;
pub mod editor;
pub mod fat16_vfs;
pub mod gdt;
pub mod pic;
pub mod rtl8139;
