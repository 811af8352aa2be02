//! Layer 0: the simulated hardware.
//!
//! The only layer that holds the resources: RAM, disk and CPU clock. It knows
//! nothing of processes or of who owns what: it only keeps data.
use vstd::prelude::*;

verus! {

pub struct Hardware {
    ram: Vec<u32>,
    disco: Vec<String>,
    reloj: u64,
}

impl Hardware {
    /// Contents of the RAM, one value per physical frame.
    pub closed spec fn ram(&self) -> Seq<u32> {
        self.ram@
    }

    /// Blocks of the disk.
    pub closed spec fn disco(&self) -> Seq<String> {
        self.disco@
    }

    /// CPU cycles elapsed.
    pub closed spec fn ciclos(&self) -> u64 {
        self.reloj
    }

    pub fn nuevo(marcos: usize, disco: Vec<String>) -> (h: Self)
        ensures
            h.ram() == Seq::new(marcos as nat, |i: int| 0u32),
            h.disco() == disco@,
            h.ciclos() == 0,
    {
        let h = Hardware { ram: vec![0; marcos], disco, reloj: 0 };
        proof {
            assert(h.ram() =~= Seq::new(marcos as nat, |i: int| 0u32));
        }
        h
    }

    pub fn num_marcos(&self) -> (n: usize)
        ensures
            n == self.ram().len(),
    {
        self.ram.len()
    }

    pub fn escribir_ram(&mut self, marco: usize, valor: u32)
        requires
            marco < old(self).ram().len(),
        ensures
            final(self).ram() == old(self).ram().update(marco as int, valor),
            final(self).disco() == old(self).disco(),
            final(self).ciclos() == old(self).ciclos(),
    {
        self.ram.set(marco, valor);
    }

    pub fn leer_ram(&self, marco: usize) -> (v: u32)
        requires
            marco < self.ram().len(),
        ensures
            v == self.ram()[marco as int],
    {
        self.ram[marco]
    }

    pub fn leer_bloque(&self, bloque: usize) -> (r: Option<String>)
        ensures
            r == (if bloque < self.disco().len() {
                Some(self.disco()[bloque as int])
            } else {
                None::<String>
            }),
    {
        if bloque < self.disco.len() {
            Some(self.disco[bloque].clone())
        } else {
            None
        }
    }

    /// Advances the clock by one CPU cycle and returns the new time.
    pub fn tick(&mut self) -> (t: u64)
        requires
            old(self).ciclos() < u64::MAX,
        ensures
            final(self).ciclos() == old(self).ciclos() + 1,
            t == final(self).ciclos(),
            final(self).ram() == old(self).ram(),
            final(self).disco() == old(self).disco(),
    {
        self.reloj = self.reloj + 1;
        self.reloj
    }

    pub fn reloj(&self) -> (t: u64)
        ensures
            t == self.ciclos(),
    {
        self.reloj
    }
}

} // verus!
