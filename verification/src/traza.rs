//! Trace of the calls between the layers of the layered system.
//!
//! Every time a layer calls the layer right below it, the call is counted as
//! received by the lower layer and, while the trace is verbose, the step is
//! kept so that it can be shown. Steps are plain values: rendering them as
//! text is left to whoever shows them.
use vstd::prelude::*;

use crate::capa1_memoria::{ErrorMemoria, Pid};
use crate::capa2_procesos::ErrorProcesos;

verus! {

/// What a step of the trace says. Lists of frames and texts that go with
/// some of them travel in the `marcos` and `texto` fields of [`Paso`].
#[derive(Clone, Copy, Debug)]
pub enum Op {
    EscribirRam { marco: usize, valor: u64 },
    Tick,
    Reloj,
    LeerBloque { bloque: usize },
    FalloMemoria(ErrorMemoria),
    MarcosReservados,
    MarcosLibresDeNuevo { n: usize },
    BloqueCargado { bytes: u32, marco: usize },
    UsoMarcos { usados: usize, total: usize },
    Reservar { pid: Pid, paginas: usize },
    PcbCreado { pid: Pid },
    FalloProcesos(ErrorProcesos),
    CicloCpu,
    Escribir { marco: usize, valor: u64 },
    Liberar { pid: Pid },
    CargarBloque { bloque: usize, marco: usize },
    DatosLeidos,
    MarcosLiberados { n: usize },
    CopiaPcbs { n: usize },
    PedirUso,
    UsoConMapa,
    Crear { paginas: usize, instrucciones: u32 },
    DevuelvePid { pid: Pid },
    DevuelveError { codigo: i32, nombre: &'static str },
    EjecutarRonda,
    LeerBloqueDe { pid: Pid, bloque: usize },
    DevuelveDatos,
    Terminar { pid: Pid },
    DevuelveCero,
    Listar,
    DevuelveLista,
    UsoMemoria,
    DevuelveUso,
    SyscallCrear { paginas: usize, instrucciones: u32 },
    SyscallPlanificar,
    SyscallLeerBloque { pid: Pid, bloque: usize },
    SyscallTerminar { pid: Pid },
    SyscallListar,
    SyscallUso,
    SyscallReloj,
}

/// One crossing of a layer boundary. `baja` is true when layer `desde`
/// calls layer `desde - 1`, false when layer `desde` answers layer `desde + 1`.
#[derive(Debug)]
pub struct Paso {
    pub desde: usize,
    pub baja: bool,
    pub op: Op,
    pub marcos: Vec<usize>,
    pub texto: String,
}

/// Mathematical value of a step.
pub struct PasoV {
    pub desde: usize,
    pub baja: bool,
    pub op: Op,
    pub marcos: Seq<usize>,
    pub texto: Seq<char>,
}

impl View for Paso {
    type V = PasoV;

    open spec fn view(&self) -> PasoV {
        PasoV { desde: self.desde, baja: self.baja, op: self.op, marcos: self.marcos@, texto: self.texto@ }
    }
}

pub open spec fn paso_v(desde: usize, baja: bool, op: Op) -> PasoV {
    PasoV { desde, baja, op, marcos: Seq::empty(), texto: Seq::empty() }
}

/// A call from layer `desde` to layer `desde - 1`.
pub open spec fn bajada(desde: usize, op: Op) -> PasoV {
    paso_v(desde, true, op)
}

/// An answer from layer `desde` to layer `desde + 1`.
pub open spec fn subida(desde: usize, op: Op) -> PasoV {
    paso_v(desde, false, op)
}

/// Number of calls received by layer `capa` among the steps `ps`.
pub open spec fn llegadas(ps: Seq<PasoV>, capa: int) -> nat
    decreases ps.len(),
{
    if ps.len() == 0 {
        0
    } else {
        llegadas(ps.drop_last(), capa) + (if ps.last().baja && ps.last().desde - 1 == capa {
            1nat
        } else {
            0nat
        })
    }
}

/// `x + k` on a counter that wraps around at the width of `usize`.
pub open spec fn sumar_mod(x: usize, k: nat) -> usize {
    ((x + k) % (usize::MAX as int + 1)) as usize
}

/// Mathematical value of a trace: calls received per layer, whether steps
/// are kept, and the steps kept.
pub struct VistaTraza {
    pub recibidas: Seq<usize>,
    pub verboso: bool,
    pub pasos: Seq<PasoV>,
}

impl VistaTraza {
    /// The trace after the steps `ps`, in order.
    pub open spec fn anotar(self, ps: Seq<PasoV>) -> VistaTraza {
        VistaTraza {
            recibidas: Seq::new(
                self.recibidas.len(),
                |i: int| sumar_mod(self.recibidas[i], llegadas(ps, i)),
            ),
            verboso: self.verboso,
            pasos: if self.verboso {
                self.pasos + ps
            } else {
                self.pasos
            },
        }
    }
}

pub proof fn lema_llegadas_concat(a: Seq<PasoV>, b: Seq<PasoV>, capa: int)
    ensures
        llegadas(a + b, capa) == llegadas(a, capa) + llegadas(b, capa),
    decreases b.len(),
{
    if b.len() == 0 {
        assert(a + b =~= a);
    } else {
        assert((a + b).drop_last() =~= a + b.drop_last());
        lema_llegadas_concat(a, b.drop_last(), capa);
    }
}

/// Recording steps one after another is recording them all at once.
pub proof fn lema_anotar_concat(t: VistaTraza, a: Seq<PasoV>, b: Seq<PasoV>)
    ensures
        t.anotar(a).anotar(b) == t.anotar(a + b),
{
    let m = usize::MAX as int + 1;
    assert forall|i: int| 0 <= i < t.recibidas.len() implies #[trigger] t.anotar(a).anotar(
        b,
    ).recibidas[i] == t.anotar(a + b).recibidas[i] by {
        lema_llegadas_concat(a, b, i);
        let x = t.recibidas[i] as int;
        let ka = llegadas(a, i) as int;
        let kb = llegadas(b, i) as int;
        assert((((x + ka) % m) + kb) % m == (x + ka + kb) % m) by {
            vstd::arithmetic::div_mod::lemma_add_mod_noop_right(kb, x + ka, m);
        }
    }
    assert(t.anotar(a).anotar(b).recibidas =~= t.anotar(a + b).recibidas);
    if t.verboso {
        assert(t.pasos + a + b =~= t.pasos + (a + b));
    }
}

/// Recording no step leaves the trace as it was.
pub proof fn lema_anotar_nada(t: VistaTraza)
    ensures
        t.anotar(Seq::empty()) == t,
{
    assert forall|i: int| 0 <= i < t.recibidas.len() implies #[trigger] t.anotar(
        Seq::empty(),
    ).recibidas[i] == t.recibidas[i] by {
        vstd::arithmetic::div_mod::lemma_small_mod(t.recibidas[i] as nat, usize::MAX as nat + 1);
    }
    assert(t.anotar(Seq::empty()).recibidas =~= t.recibidas);
    assert(t.pasos + Seq::<PasoV>::empty() =~= t.pasos);
}

/// Counters of the calls received by each of the five layers, and the steps
/// kept while the trace is verbose.
pub struct Traza {
    recibidas: [usize; 5],
    verboso: bool,
    pasos: Vec<Paso>,
}

impl View for Traza {
    type V = VistaTraza;

    closed spec fn view(&self) -> VistaTraza {
        VistaTraza {
            recibidas: self.recibidas@,
            verboso: self.verboso,
            pasos: self.pasos@.map_values(|p: Paso| p@),
        }
    }
}

impl Traza {
    /// A trace with no call counted yet, verbose.
    pub fn nueva() -> (t: Traza)
        ensures
            t@.recibidas == seq![0usize, 0, 0, 0, 0],
            t@.verboso,
            t@.pasos == Seq::<PasoV>::empty(),
    {
        let t = Traza { recibidas: [0, 0, 0, 0, 0], verboso: true, pasos: Vec::new() };
        proof {
            assert(t@.recibidas =~= seq![0usize, 0, 0, 0, 0]);
            assert(t@.pasos =~= Seq::<PasoV>::empty());
        }
        t
    }

    /// Records one step.
    pub fn registrar(&mut self, paso: Paso)
        requires
            paso.baja ==> 1 <= paso.desde <= 5,
            paso.baja && old(self)@.verboso ==> paso.desde <= 4,
            !paso.baja && old(self)@.verboso ==> paso.desde <= 3,
        ensures
            final(self)@ == old(self)@.anotar(seq![paso@]),
    {
        let ghost pv = paso@;
        let ghost t0 = self@;
        if paso.baja {
            let i = paso.desde - 1;
            let x = self.recibidas[i];
            let y = if x == usize::MAX {
                0
            } else {
                x + 1
            };
            self.recibidas[i] = y;
        }
        if self.verboso {
            self.pasos.push(paso);
        }
        proof {
            let ps = seq![pv];
            assert(ps.drop_last() =~= Seq::<PasoV>::empty());
            assert(ps.last() == pv);
            assert forall|j: int| llegadas(Seq::<PasoV>::empty(), j) == 0 by {}
            assert forall|j: int| 0 <= j < 5 implies #[trigger] self@.recibidas[j] == t0.anotar(
                ps,
            ).recibidas[j] by {
                let k = llegadas(ps, j);
                assert(k == llegadas(ps.drop_last(), j) + (if ps.last().baja && ps.last().desde - 1 == j {
                    1nat
                } else {
                    0nat
                }));
                assert(llegadas(ps.drop_last(), j) == 0);
                if pv.baja && pv.desde - 1 == j {
                    assert(k == 1);
                    if t0.recibidas[j] == usize::MAX {
                        assert((usize::MAX as int + 1) % (usize::MAX as int + 1) == 0) by {
                            vstd::arithmetic::div_mod::lemma_mod_self_0(usize::MAX as int + 1);
                        }
                    } else {
                        vstd::arithmetic::div_mod::lemma_small_mod(
                            (t0.recibidas[j] + 1) as nat,
                            usize::MAX as nat + 1,
                        );
                    }
                } else {
                    assert(k == 0);
                    vstd::arithmetic::div_mod::lemma_small_mod(
                        t0.recibidas[j] as nat,
                        usize::MAX as nat + 1,
                    );
                }
            }
            assert(self@.recibidas =~= t0.anotar(ps).recibidas);
            if t0.verboso {
                assert(self@.pasos =~= t0.pasos + ps);
            }
        }
    }

    /// Hands over the steps kept so far and keeps none.
    pub fn tomar_pasos(&mut self) -> (r: Vec<Paso>)
        ensures
            r@.map_values(|p: Paso| p@) == old(self)@.pasos,
            final(self)@ == (VistaTraza { pasos: Seq::empty(), ..old(self)@ }),
    {
        let mut r: Vec<Paso> = Vec::new();
        std::mem::swap(&mut r, &mut self.pasos);
        proof {
            assert(self@.pasos =~= Seq::<PasoV>::empty());
        }
        r
    }
}

/// Turns the keeping of steps on or off; the counting goes on either way.
pub fn set_verboso(t: &mut Traza, v: bool)
    ensures
        final(t)@ == (VistaTraza { verboso: v, ..old(t)@ }),
{
    t.verboso = v;
}

/// Whether steps are being kept.
pub fn verboso(t: &Traza) -> (v: bool)
    ensures
        v == t@.verboso,
{
    t.verboso
}

/// Indentation of the lines of layer `capa`: four spaces per layer above it.
pub fn sangria(capa: usize) -> (s: String)
    requires
        capa <= 4,
    ensures
        s@ == Seq::new(4 * (4 - capa) as nat, |i: int| ' '),
{
    let mut s = String::new();
    let mut k: usize = 0;
    while k < 4 - capa
        invariant
            capa <= 4,
            k <= 4 - capa,
            s@ == Seq::new(4 * k as nat, |i: int| ' '),
        decreases 4 - capa - k,
    {
        s.push(' ');
        s.push(' ');
        s.push(' ');
        s.push(' ');
        k = k + 1;
        proof {
            assert(s@ =~= Seq::new(4 * k as nat, |i: int| ' '));
        }
    }
    s
}

/// Records that layer `desde` calls layer `desde - 1`.
pub fn bajar(t: &mut Traza, desde: usize, op: Op)
    requires
        1 <= desde <= 5,
        old(t)@.verboso ==> desde <= 4,
    ensures
        final(t)@ == old(t)@.anotar(seq![bajada(desde, op)]),
{
    let p = Paso { desde, baja: true, op, marcos: Vec::new(), texto: String::new() };
    proof {
        assert(p@ == bajada(desde, op));
    }
    t.registrar(p);
}

/// Records that layer `desde` answers layer `desde + 1`.
pub fn subir(t: &mut Traza, desde: usize, op: Op)
    requires
        old(t)@.verboso ==> desde <= 3,
    ensures
        final(t)@ == old(t)@.anotar(seq![subida(desde, op)]),
{
    let p = Paso { desde, baja: false, op, marcos: Vec::new(), texto: String::new() };
    proof {
        assert(p@ == subida(desde, op));
    }
    t.registrar(p);
}

/// Calls received so far by each layer (index = layer number).
pub fn recibidas(t: &Traza) -> (r: [usize; 5])
    ensures
        r@ == t@.recibidas,
{
    let r = [t.recibidas[0], t.recibidas[1], t.recibidas[2], t.recibidas[3], t.recibidas[4]];
    proof {
        assert(r@ =~= t@.recibidas);
    }
    r
}

pub open spec fn suma(s: Seq<usize>) -> int
    decreases s.len(),
{
    if s.len() == 0 {
        0
    } else {
        suma(s.drop_last()) + s.last()
    }
}

/// Layer boundaries crossed so far, over all layers.
pub fn total_cruces(t: &Traza) -> (n: usize)
    requires
        suma(t@.recibidas) <= usize::MAX,
    ensures
        n == suma(t@.recibidas),
{
    let mut n: usize = 0;
    let mut i: usize = 0;
    while i < 5
        invariant
            i <= 5,
            t@.recibidas.len() == 5,
            suma(t@.recibidas) <= usize::MAX,
            n == suma(t@.recibidas.take(i as int)),
        decreases 5 - i,
    {
        proof {
            assert(t@.recibidas.take(i as int + 1).drop_last() =~= t@.recibidas.take(i as int));
            lema_suma_prefijo(t@.recibidas, i as int + 1);
        }
        n = n + t.recibidas[i];
        i = i + 1;
    }
    proof {
        assert(t@.recibidas.take(5) =~= t@.recibidas);
    }
    n
}

proof fn lema_suma_prefijo(s: Seq<usize>, k: int)
    requires
        0 <= k <= s.len(),
    ensures
        suma(s.take(k)) <= suma(s),
    decreases s.len(),
{
    if k < s.len() {
        assert(s.drop_last().take(k) =~= s.take(k));
        lema_suma_prefijo(s.drop_last(), k);
    } else {
        assert(s.take(k) =~= s);
    }
}

} // verus!
