//! Layer 1: memory management.
//!
//! Decides which RAM frames belong to which process. It is the only layer
//! that talks to the hardware, so it also passes down the CPU and disk
//! operations that the layers above ask for.
use vstd::prelude::*;

use crate::capa0_hardware::Hardware;
use crate::texto::{agregar, decimal, escribir_decimal};
use crate::traza::{bajada, bajar, subida, subir, lema_anotar_concat, lema_anotar_nada, Op, Paso, PasoV, Traza};

verus! {

pub type Pid = u32;

#[derive(Clone, Copy, Debug)]
pub enum ErrorMemoria {
    SinMarcos { pedidos: usize, libres: usize },
    BloqueInexistente(usize),
}

/// How an error of the memory layer reads.
pub open spec fn texto_error_memoria(e: ErrorMemoria) -> Seq<char> {
    match e {
        ErrorMemoria::SinMarcos { pedidos, libres } => "SinMarcos(pedidos "@ + decimal(pedidos as nat) + ", libres "@
            + decimal(libres as nat) + ")"@,
        ErrorMemoria::BloqueInexistente(b) => "BloqueInexistente("@ + decimal(b as nat) + ")"@,
    }
}

impl ErrorMemoria {
    /// The error as text.
    pub fn texto(&self) -> (s: String)
        ensures
            s@ == texto_error_memoria(*self),
    {
        match self {
            ErrorMemoria::SinMarcos { pedidos, libres } => {
                let mut s = "SinMarcos(pedidos ".to_owned();
                escribir_decimal(&mut s, *pedidos as u64);
                agregar(&mut s, ", libres ");
                escribir_decimal(&mut s, *libres as u64);
                agregar(&mut s, ")");
                s
            },
            ErrorMemoria::BloqueInexistente(b) => {
                let mut s = "BloqueInexistente(".to_owned();
                escribir_decimal(&mut s, *b as u64);
                agregar(&mut s, ")");
                s
            },
        }
    }
}

pub struct GestorMemoria {
    hw: Hardware,
    duenos: Vec<Option<Pid>>,
}

/// Free frames among the first `n`, in increasing order.
pub open spec fn libres_hasta(d: Seq<Option<Pid>>, n: int) -> Seq<usize>
    decreases n,
{
    if n <= 0 {
        Seq::empty()
    } else {
        let r = libres_hasta(d, n - 1);
        if d[n - 1] is None {
            r.push((n - 1) as usize)
        } else {
            r
        }
    }
}

/// Free frames of the owner map `d`, in increasing order.
pub open spec fn libres(d: Seq<Option<Pid>>) -> Seq<usize> {
    libres_hasta(d, d.len() as int)
}

/// Number of frames owned by `pid`.
pub open spec fn cuenta_de(d: Seq<Option<Pid>>, pid: Pid) -> nat
    decreases d.len(),
{
    if d.len() == 0 {
        0
    } else {
        cuenta_de(d.drop_last(), pid) + (if d.last() == Some(pid) {
            1nat
        } else {
            0nat
        })
    }
}

/// Number of frames owned by some process.
pub open spec fn cuenta_usados(d: Seq<Option<Pid>>) -> nat
    decreases d.len(),
{
    if d.len() == 0 {
        0
    } else {
        cuenta_usados(d.drop_last()) + (if d.last() is Some {
            1nat
        } else {
            0nat
        })
    }
}

/// The owner map after giving the frames `s` to `pid`.
pub open spec fn asignar(d: Seq<Option<Pid>>, s: Seq<usize>, pid: Pid) -> Seq<Option<Pid>> {
    Seq::new(d.len(), |i: int| if s.contains(i as usize) { Some(pid) } else { d[i] })
}

/// The RAM after clearing the frames `s`.
pub open spec fn limpiar(ram: Seq<u32>, s: Seq<usize>) -> Seq<u32> {
    Seq::new(ram.len(), |i: int| if s.contains(i as usize) { 0u32 } else { ram[i] })
}

/// The owner map after freeing every frame of `pid`.
pub open spec fn soltar(d: Seq<Option<Pid>>, pid: Pid) -> Seq<Option<Pid>> {
    Seq::new(d.len(), |i: int| if d[i] == Some(pid) { None } else { d[i] })
}

/// Steps recorded when the frames `a` are given: one clearing write per
/// frame, then the answer with the list of frames.
pub open spec fn pasos_reserva(a: Seq<usize>) -> Seq<PasoV> {
    Seq::new(a.len(), |i: int| bajada(1, Op::EscribirRam { marco: a[i], valor: 0 })).push(
        PasoV { desde: 1, baja: false, op: Op::MarcosReservados, marcos: a, texto: Seq::empty() },
    )
}

/// Number of bytes of the UTF-8 encoding of a text.
pub open spec fn largo_bytes(s: Seq<char>) -> nat {
    vstd::utf8::encode_utf8(s).len()
}

/// Steps recorded when block `bloque` is loaded into `marco`.
pub open spec fn pasos_carga(bloque: usize, marco: usize, datos: Option<String>) -> Seq<PasoV> {
    match datos {
        None => seq![
            bajada(1, Op::LeerBloque { bloque }),
            subida(1, Op::FalloMemoria(ErrorMemoria::BloqueInexistente(bloque))),
        ],
        Some(d) => seq![
            bajada(1, Op::LeerBloque { bloque }),
            bajada(1, Op::EscribirRam { marco, valor: largo_bytes(d@) as usize as u64 }),
            PasoV {
                desde: 1,
                baja: false,
                op: Op::BloqueCargado { bytes: largo_bytes(d@) as usize as u32, marco },
                marcos: Seq::empty(),
                texto: d@,
            },
        ],
    }
}

pub proof fn lema_libres_hasta(d: Seq<Option<Pid>>, n: int)
    requires
        0 <= n <= d.len(),
        d.len() <= usize::MAX,
    ensures
        forall|k: int|
            0 <= k < libres_hasta(d, n).len() ==> #[trigger] libres_hasta(d, n)[k] < n && d[libres_hasta(
                d,
                n,
            )[k] as int] is None,
        forall|k: int, j: int|
            0 <= k < j < libres_hasta(d, n).len() ==> libres_hasta(d, n)[k] < libres_hasta(
                d,
                n,
            )[j],
        forall|m: int| 0 <= m < n && d[m] is None ==> libres_hasta(d, n).contains(m as usize),
        libres_hasta(d, n).len() <= n,
    decreases n,
{
    if n > 0 {
        lema_libres_hasta(d, n - 1);
        let r = libres_hasta(d, n - 1);
        let s = libres_hasta(d, n);
        if d[n - 1] is None {
            assert(s == r.push((n - 1) as usize));
            assert forall|k: int| 0 <= k < s.len() implies #[trigger] s[k] < n && d[s[k] as int] is None by {
                if k < r.len() {
                    assert(s[k] == r[k]);
                }
            }
            assert forall|k: int, j: int| 0 <= k < j < s.len() implies s[k] < s[j] by {
                assert(s[k] == r[k]);
            }
            assert forall|m: int| 0 <= m < n && d[m] is None implies s.contains(m as usize) by {
                if m < n - 1 {
                    let k = choose|k: int| 0 <= k < r.len() && r[k] == m as usize;
                    assert(s[k] == m as usize);
                } else {
                    assert(s[r.len() as int] == m as usize);
                }
            }
        } else {
            assert(s == r);
        }
    }
}

/// Freeing the frames of `pid` frees exactly those: none is left to it,
/// the used frames drop by as many as it had, and every other process
/// keeps its own.
pub proof fn ley_soltar(d: Seq<Option<Pid>>, pid: Pid)
    ensures
        cuenta_de(soltar(d, pid), pid) == 0,
        cuenta_usados(soltar(d, pid)) + cuenta_de(d, pid) == cuenta_usados(d),
        forall|q: Pid| q != pid ==> #[trigger] cuenta_de(soltar(d, pid), q) == cuenta_de(d, q),
    decreases d.len(),
{
    if d.len() > 0 {
        let r = d.drop_last();
        ley_soltar(r, pid);
        assert(soltar(d, pid).drop_last() =~= soltar(r, pid));
        assert(soltar(d, pid).last() == if d.last() == Some(pid) {
            None
        } else {
            d.last()
        });
        assert forall|q: Pid| q != pid implies #[trigger] cuenta_de(soltar(d, pid), q) == cuenta_de(d, q) by {
            assert(cuenta_de(soltar(r, pid), q) == cuenta_de(r, q));
        }
    }
}

/// Giving a free frame to a process uses one more frame.
pub proof fn lema_usados_dar(d: Seq<Option<Pid>>, m: int, pid: Pid)
    requires
        0 <= m < d.len(),
        d[m] is None,
    ensures
        cuenta_usados(d.update(m, Some(pid))) == cuenta_usados(d) + 1,
    decreases d.len(),
{
    let r = d.drop_last();
    if m < d.len() - 1 {
        lema_usados_dar(r, m, pid);
        assert(d.update(m, Some(pid)).drop_last() =~= r.update(m, Some(pid)));
    } else {
        assert(d.update(m, Some(pid)).drop_last() =~= r);
    }
}

/// Giving `s`, distinct free frames, to a process uses that many more
/// frames.
pub proof fn ley_asignar(d: Seq<Option<Pid>>, s: Seq<usize>, pid: Pid)
    requires
        d.len() <= usize::MAX,
        s.no_duplicates(),
        forall|k: int| 0 <= k < s.len() ==> #[trigger] s[k] < d.len() && d[s[k] as int] is None,
    ensures
        cuenta_usados(asignar(d, s, pid)) == cuenta_usados(d) + s.len(),
        cuenta_de(asignar(d, s, pid), pid) == cuenta_de(d, pid) + s.len(),
    decreases s.len(),
{
    if s.len() > 0 {
        let r = s.drop_last();
        let x = s.last();
        assert forall|a: int, b: int| 0 <= a < b < r.len() implies r[a] != r[b] by {
            assert(r[a] == s[a]);
            assert(r[b] == s[b]);
        }
        assert forall|k: int| 0 <= k < r.len() implies #[trigger] r[k] < d.len() && d[r[k] as int] is None by {
            assert(r[k] == s[k]);
        }
        ley_asignar(d, r, pid);
        let d1 = asignar(d, r, pid);
        assert(!r.contains(x)) by {
            if r.contains(x) {
                let k = choose|k: int| 0 <= k < r.len() && r[k] == x;
                assert(s[k] == s[s.len() - 1]);
            }
        }
        assert(d1[x as int] is None) by {
            assert(s[s.len() - 1] == x);
        }
        assert(asignar(d, s, pid) =~= d1.update(x as int, Some(pid))) by {
            assert forall|i: int| 0 <= i < d.len() implies #[trigger] asignar(d, s, pid)[i] == d1.update(
                x as int,
                Some(pid),
            )[i] by {
                if s.contains(i as usize) && i != x {
                    let k = choose|k: int| 0 <= k < s.len() && s[k] == i as usize;
                    assert(k < s.len() - 1);
                    assert(r[k] == i as usize);
                }
                if r.contains(i as usize) {
                    let k = choose|k: int| 0 <= k < r.len() && r[k] == i as usize;
                    assert(s[k] == i as usize);
                }
                if i == x {
                    assert(s[s.len() - 1] == i as usize);
                }
            }
        }
        lema_usados_dar(d1, x as int, pid);
        lema_de_dar(d1, x as int, pid);
    } else {
        assert(asignar(d, s, pid) =~= d);
    }
}

/// Giving a free frame to `pid` gives it one more frame.
pub proof fn lema_de_dar(d: Seq<Option<Pid>>, m: int, pid: Pid)
    requires
        0 <= m < d.len(),
        d[m] is None,
    ensures
        cuenta_de(d.update(m, Some(pid)), pid) == cuenta_de(d, pid) + 1,
    decreases d.len(),
{
    let r = d.drop_last();
    if m < d.len() - 1 {
        lema_de_dar(r, m, pid);
        assert(d.update(m, Some(pid)).drop_last() =~= r.update(m, Some(pid)));
    } else {
        assert(d.update(m, Some(pid)).drop_last() =~= r);
    }
}

/// With no frame owned, no frame is used.
pub proof fn lema_usados_ninguno(d: Seq<Option<Pid>>)
    requires
        forall|m: int| 0 <= m < d.len() ==> #[trigger] d[m] is None,
    ensures
        cuenta_usados(d) == 0,
    decreases d.len(),
{
    if d.len() > 0 {
        let r = d.drop_last();
        assert forall|m: int| 0 <= m < r.len() implies #[trigger] r[m] is None by {
            assert(r[m] == d[m]);
        }
        lema_usados_ninguno(r);
        assert(d[d.len() - 1] is None);
    }
}

proof fn lema_cuenta_usados(d: Seq<Option<Pid>>)
    ensures
        cuenta_usados(d) <= d.len(),
    decreases d.len(),
{
    if d.len() > 0 {
        lema_cuenta_usados(d.drop_last());
    }
}

proof fn lema_cuenta_de(d: Seq<Option<Pid>>, pid: Pid)
    ensures
        cuenta_de(d, pid) <= d.len(),
    decreases d.len(),
{
    if d.len() > 0 {
        lema_cuenta_de(d.drop_last(), pid);
    }
}

fn copiar_marcos(v: &Vec<usize>) -> (r: Vec<usize>)
    ensures
        r@ == v@,
{
    let mut r: Vec<usize> = Vec::new();
    let mut i: usize = 0;
    while i < v.len()
        invariant
            i <= v@.len(),
            r@ == v@.take(i as int),
        decreases v@.len() - i,
    {
        r.push(v[i]);
        i = i + 1;
        proof {
            assert(r@ =~= v@.take(i as int));
        }
    }
    proof {
        assert(v@.take(i as int) =~= v@);
    }
    r
}

impl GestorMemoria {
    /// There is one owner entry per RAM frame.
    pub closed spec fn wf(&self) -> bool {
        &&& self.duenos@.len() == self.hw.ram().len()
        &&& self.duenos@.len() <= usize::MAX
    }

    /// Owner of each frame (`None` = free).
    pub closed spec fn duenos(&self) -> Seq<Option<Pid>> {
        self.duenos@
    }

    pub closed spec fn ram(&self) -> Seq<u32> {
        self.hw.ram()
    }

    pub closed spec fn disco(&self) -> Seq<String> {
        self.hw.disco()
    }

    pub closed spec fn ciclos(&self) -> u64 {
        self.hw.ciclos()
    }

    /// There is one owner entry per RAM frame.
    pub proof fn lema_tamanos(&self)
        requires
            self.wf(),
        ensures
            self.duenos().len() == self.ram().len(),
            self.duenos().len() <= usize::MAX,
    {
    }

    pub fn nuevo(hw: Hardware) -> (g: Self)
        ensures
            g.wf(),
            g.ram() == hw.ram(),
            g.disco() == hw.disco(),
            g.ciclos() == hw.ciclos(),
            g.duenos() == Seq::new(hw.ram().len(), |i: int| None::<Pid>),
    {
        let n = hw.num_marcos();
        let g = GestorMemoria { hw, duenos: vec![None; n] };
        proof {
            assert(g.duenos() =~= Seq::new(n as nat, |i: int| None::<Pid>));
        }
        g
    }

    /// Reserves `paginas` frames for `pid`, the lowest free ones, and clears
    /// them in the hardware.
    pub fn reservar(&mut self, pid: Pid, paginas: usize, t: &mut Traza) -> (r: Result<
        Vec<usize>,
        ErrorMemoria,
    >)
        requires
            old(self).wf(),
        ensures
            final(self).wf(),
            r is Ok <==> paginas <= libres(old(self).duenos()).len(),
            final(self).disco() == old(self).disco(),
            final(self).ciclos() == old(self).ciclos(),
            match r {
                Ok(a) => {
                    &&& a@ == libres(old(self).duenos()).take(paginas as int)
                    &&& final(self).duenos() == asignar(old(self).duenos(), a@, pid)
                    &&& final(self).ram() == limpiar(old(self).ram(), a@)
                    &&& final(t)@ == old(t)@.anotar(pasos_reserva(a@))
                },
                Err(e) => {
                    &&& e == ErrorMemoria::SinMarcos {
                        pedidos: paginas,
                        libres: libres(old(self).duenos()).len() as usize,
                    }
                    &&& final(self).duenos() == old(self).duenos()
                    &&& final(self).ram() == old(self).ram()
                    &&& final(t)@ == old(t)@.anotar(seq![subida(1, Op::FalloMemoria(e))])
                },
            },
    {
        let ghost d0 = self.duenos@;
        let ghost ram0 = self.hw.ram();
        let ghost t0 = t@;
        let mut lib: Vec<usize> = Vec::new();
        let mut m: usize = 0;
        while m < self.duenos.len()
            invariant
                m <= d0.len(),
                self.duenos@ == d0,
                lib@ == libres_hasta(d0, m as int),
            decreases d0.len() - m,
        {
            if self.duenos[m].is_none() {
                lib.push(m);
            }
            m = m + 1;
        }
        proof {
            lema_libres_hasta(d0, d0.len() as int);
        }
        if lib.len() < paginas {
            let e = ErrorMemoria::SinMarcos { pedidos: paginas, libres: lib.len() };
            subir(t, 1, Op::FalloMemoria(e));
            return Err(e);
        }
        lib.truncate(paginas);
        let asignados = lib;
        proof {
            lema_anotar_nada(t0);
            assert(pasos_reserva(asignados@).take(0) =~= Seq::<PasoV>::empty());
            assert(asignados@.take(0) =~= Seq::<usize>::empty());
            assert(asignar(d0, Seq::<usize>::empty(), pid) =~= d0);
            assert(limpiar(ram0, Seq::<usize>::empty()) =~= ram0);
        }
        let mut k: usize = 0;
        while k < asignados.len()
            invariant
                k <= asignados@.len(),
                asignados@ == libres(d0).take(paginas as int),
                asignados@.len() == paginas,
                d0.len() <= usize::MAX,
                ram0.len() == d0.len(),
                forall|j: int| 0 <= j < asignados@.len() ==> asignados@[j] < d0.len(),
                self.duenos@ == asignar(d0, asignados@.take(k as int), pid),
                self.hw.ram() == limpiar(ram0, asignados@.take(k as int)),
                self.hw.disco() == old(self).disco(),
                self.hw.ciclos() == old(self).ciclos(),
                self.duenos@.len() == self.hw.ram().len(),
                t@ == t0.anotar(pasos_reserva(asignados@).take(k as int)),
            decreases asignados@.len() - k,
        {
            let mk = asignados[k];
            self.duenos.set(mk, Some(pid));
            bajar(t, 1, Op::EscribirRam { marco: mk, valor: 0 });
            self.hw.escribir_ram(mk, 0);
            proof {
                let a = asignados@;
                assert(a.take(k as int + 1) =~= a.take(k as int).push(mk));
                let tk1 = a.take(k as int + 1);
                let tk = a.take(k as int);
                assert forall|i: usize| #[trigger] tk1.contains(i) <==> (tk.contains(i) || i == mk) by {
                    if tk1.contains(i) {
                        let j = choose|j: int| 0 <= j < tk1.len() && tk1[j] == i;
                        if j < k {
                            assert(tk[j] == i);
                        }
                    }
                    if tk.contains(i) {
                        let j = choose|j: int| 0 <= j < tk.len() && tk[j] == i;
                        assert(tk1[j] == i);
                    }
                    if i == mk {
                        assert(tk1[k as int] == i);
                    }
                }
                assert forall|i: int| 0 <= i < d0.len() implies #[trigger] self.duenos@[i] == asignar(d0, tk1, pid)[i] by {
                    assert(tk1.contains(i as usize) <==> (tk.contains(i as usize) || i as usize == mk));
                }
                assert(self.duenos@ =~= asignar(d0, a.take(k as int + 1), pid));
                assert forall|i: int| 0 <= i < d0.len() implies #[trigger] self.hw.ram()[i] == limpiar(ram0, tk1)[i] by {
                    assert(tk1.contains(i as usize) <==> (tk.contains(i as usize) || i as usize == mk));
                }
                assert(self.hw.ram() =~= limpiar(ram0, a.take(k as int + 1)));
                lema_anotar_concat(
                    t0,
                    pasos_reserva(a).take(k as int),
                    seq![bajada(1, Op::EscribirRam { marco: mk, valor: 0 })],
                );
                assert(pasos_reserva(a).take(k as int + 1) =~= pasos_reserva(a).take(k as int)
                    + seq![bajada(1, Op::EscribirRam { marco: mk, valor: 0 })]);
            }
            k = k + 1;
        }
        let copia = copiar_marcos(&asignados);
        let p = Paso {
            desde: 1,
            baja: false,
            op: Op::MarcosReservados,
            marcos: copia,
            texto: String::new(),
        };
        let ghost pv = p@;
        t.registrar(p);
        proof {
            let a = asignados@;
            assert(a.take(a.len() as int) =~= a);
            lema_anotar_concat(t0, pasos_reserva(a).take(a.len() as int), seq![pv]);
            assert(pasos_reserva(a).take(a.len() as int) + seq![pv] =~= pasos_reserva(a));
        }
        Ok(asignados)
    }

    /// Frees every frame of `pid` and returns how many it freed.
    pub fn liberar(&mut self, pid: Pid, t: &mut Traza) -> (n: usize)
        requires
            old(self).wf(),
        ensures
            final(self).wf(),
            n == cuenta_de(old(self).duenos(), pid),
            final(self).duenos() == soltar(old(self).duenos(), pid),
            final(self).ram() == old(self).ram(),
            final(self).disco() == old(self).disco(),
            final(self).ciclos() == old(self).ciclos(),
            final(t)@ == old(t)@.anotar(seq![subida(1, Op::MarcosLibresDeNuevo { n })]),
    {
        let ghost d0 = self.duenos@;
        let mut n: usize = 0;
        let mut i: usize = 0;
        while i < self.duenos.len()
            invariant
                i <= d0.len(),
                self.duenos@.len() == d0.len(),
                n == cuenta_de(d0.take(i as int), pid),
                self.hw.ram() == old(self).ram(),
                self.hw.disco() == old(self).disco(),
                self.hw.ciclos() == old(self).ciclos(),
                d0.len() == self.hw.ram().len(),
                forall|j: int|
                    0 <= j < d0.len() ==> #[trigger] self.duenos@[j] == if j < i && d0[j] == Some(
                        pid,
                    ) {
                        None
                    } else {
                        d0[j]
                    },
            decreases d0.len() - i,
        {
            proof {
                assert(d0.take(i as int + 1).drop_last() =~= d0.take(i as int));
                lema_cuenta_de(d0.take(i as int), pid);
            }
            if self.duenos[i] == Some(pid) {
                self.duenos.set(i, None);
                n = n + 1;
            }
            i = i + 1;
        }
        proof {
            assert(d0.take(d0.len() as int) =~= d0);
            assert(self.duenos@ =~= soltar(d0, pid));
        }
        subir(t, 1, Op::MarcosLibresDeNuevo { n });
        n
    }

    pub fn escribir(&mut self, marco: usize, valor: u32, t: &mut Traza)
        requires
            old(self).wf(),
            marco < old(self).ram().len(),
        ensures
            final(self).wf(),
            final(self).ram() == old(self).ram().update(marco as int, valor),
            final(self).duenos() == old(self).duenos(),
            final(self).disco() == old(self).disco(),
            final(self).ciclos() == old(self).ciclos(),
            final(t)@ == old(t)@.anotar(
                seq![bajada(1, Op::EscribirRam { marco, valor: valor as u64 })],
            ),
    {
        bajar(t, 1, Op::EscribirRam { marco, valor: valor as u64 });
        self.hw.escribir_ram(marco, valor);
    }

    /// Forwards one CPU cycle: the layers above cannot reach the hardware.
    pub fn ciclo_cpu(&mut self, t: &mut Traza) -> (c: u64)
        requires
            old(self).wf(),
            old(self).ciclos() < u64::MAX,
        ensures
            final(self).wf(),
            final(self).ciclos() == old(self).ciclos() + 1,
            c == final(self).ciclos(),
            final(self).ram() == old(self).ram(),
            final(self).duenos() == old(self).duenos(),
            final(self).disco() == old(self).disco(),
            final(t)@ == old(t)@.anotar(seq![bajada(1, Op::Tick)]),
    {
        bajar(t, 1, Op::Tick);
        self.hw.tick()
    }

    pub fn reloj(&mut self, t: &mut Traza) -> (c: u64)
        requires
            old(self).wf(),
        ensures
            final(self).wf(),
            c == old(self).ciclos(),
            *final(self) == *old(self),
            final(t)@ == old(t)@.anotar(seq![bajada(1, Op::Reloj)]),
    {
        bajar(t, 1, Op::Reloj);
        self.hw.reloj()
    }

    /// Reads a disk block and leaves its length in one frame of the process.
    pub fn cargar_bloque(&mut self, bloque: usize, marco: usize, t: &mut Traza) -> (r: Result<
        String,
        ErrorMemoria,
    >)
        requires
            old(self).wf(),
            bloque < old(self).disco().len() ==> marco < old(self).ram().len(),
        ensures
            final(self).wf(),
            final(self).duenos() == old(self).duenos(),
            final(self).disco() == old(self).disco(),
            final(self).ciclos() == old(self).ciclos(),
            bloque < old(self).disco().len() ==> {
                &&& r == Ok::<String, ErrorMemoria>(old(self).disco()[bloque as int])
                &&& final(self).ram() == old(self).ram().update(
                    marco as int,
                    largo_bytes(old(self).disco()[bloque as int]@) as usize as u32,
                )
                &&& final(t)@ == old(t)@.anotar(
                    pasos_carga(bloque, marco, Some(old(self).disco()[bloque as int])),
                )
            },
            bloque >= old(self).disco().len() ==> {
                &&& r == Err::<String, ErrorMemoria>(ErrorMemoria::BloqueInexistente(bloque))
                &&& final(self).ram() == old(self).ram()
                &&& final(t)@ == old(t)@.anotar(pasos_carga(bloque, marco, None))
            },
    {
        let ghost t0 = t@;
        bajar(t, 1, Op::LeerBloque { bloque });
        let datos = match self.hw.leer_bloque(bloque) {
            Some(d) => d,
            None => {
                let e = ErrorMemoria::BloqueInexistente(bloque);
                subir(t, 1, Op::FalloMemoria(e));
                proof {
                    lema_anotar_concat(
                        t0,
                        seq![bajada(1, Op::LeerBloque { bloque })],
                        seq![subida(1, Op::FalloMemoria(e))],
                    );
                    assert(seq![bajada(1, Op::LeerBloque { bloque })] + seq![
                        subida(1, Op::FalloMemoria(e)),
                    ] =~= pasos_carga(bloque, marco, None));
                }
                return Err(e);
            },
        };
        let largo = datos.as_str().len();
        let ghost t1 = t@;
        bajar(t, 1, Op::EscribirRam { marco, valor: largo as u64 });
        self.hw.escribir_ram(marco, largo as u32);
        let verif = self.hw.leer_ram(marco);
        let p = Paso {
            desde: 1,
            baja: false,
            op: Op::BloqueCargado { bytes: verif, marco },
            marcos: Vec::new(),
            texto: datos.clone(),
        };
        let ghost pv = p@;
        let ghost t2 = t@;
        t.registrar(p);
        proof {
            let s1 = seq![bajada(1, Op::LeerBloque { bloque })];
            let s2 = seq![bajada(1, Op::EscribirRam { marco, valor: largo as u64 })];
            lema_anotar_concat(t0, s1, s2);
            lema_anotar_concat(t0, s1 + s2, seq![pv]);
            assert(s1 + s2 + seq![pv] =~= pasos_carga(bloque, marco, Some(datos)));
        }
        Ok(datos)
    }

    /// Current time of the clock, without recording a step in any trace.
    pub fn reloj_actual(&self) -> (c: u64)
        ensures
            c == self.ciclos(),
    {
        self.hw.reloj()
    }

    /// Number of free frames.
    pub fn num_libres(&self) -> (n: usize)
        requires
            self.wf(),
        ensures
            n == libres(self.duenos()).len(),
    {
        let ghost d = self.duenos@;
        let mut n: usize = 0;
        let mut m: usize = 0;
        while m < self.duenos.len()
            invariant
                m <= d.len(),
                self.duenos@ == d,
                d.len() <= usize::MAX,
                n == libres_hasta(d, m as int).len(),
                n <= m,
            decreases d.len() - m,
        {
            if self.duenos[m].is_none() {
                n = n + 1;
            }
            m = m + 1;
        }
        n
    }

    /// (used frames, total frames)
    pub fn uso(&self, t: &mut Traza) -> (r: (usize, usize))
        requires
            self.wf(),
        ensures
            r.0 == cuenta_usados(self.duenos()),
            r.1 == self.duenos().len(),
            final(t)@ == old(t)@.anotar(
                seq![subida(1, Op::UsoMarcos { usados: r.0, total: r.1 })],
            ),
    {
        let mut usados: usize = 0;
        let mut i: usize = 0;
        while i < self.duenos.len()
            invariant
                i <= self.duenos@.len(),
                usados == cuenta_usados(self.duenos@.take(i as int)),
            decreases self.duenos@.len() - i,
        {
            proof {
                assert(self.duenos@.take(i as int + 1).drop_last() =~= self.duenos@.take(i as int));
                lema_cuenta_usados(self.duenos@.take(i as int));
            }
            if self.duenos[i].is_some() {
                usados = usados + 1;
            }
            i = i + 1;
        }
        proof {
            assert(self.duenos@.take(i as int) =~= self.duenos@);
        }
        subir(t, 1, Op::UsoMarcos { usados, total: self.duenos.len() });
        (usados, self.duenos.len())
    }

    /// A copy of the frame map: the layers above get a copy, never the
    /// structure itself.
    pub fn mapa(&self) -> (m: Vec<Option<Pid>>)
        requires
            self.wf(),
        ensures
            m@ == self.duenos(),
    {
        let mut m: Vec<Option<Pid>> = Vec::new();
        let mut i: usize = 0;
        while i < self.duenos.len()
            invariant
                i <= self.duenos@.len(),
                m@ == self.duenos@.take(i as int),
            decreases self.duenos@.len() - i,
        {
            m.push(self.duenos[i]);
            i = i + 1;
            proof {
                assert(m@ =~= self.duenos@.take(i as int));
            }
        }
        proof {
            assert(self.duenos@.take(i as int) =~= self.duenos@);
        }
        m
    }
}

} // verus!
