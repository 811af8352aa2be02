//! Layer 2: process management and scheduling.
//!
//! Creates processes (with their control block), asks layer 1 for memory and
//! shares the CPU with Round Robin. It only knows the public interface of
//! layer 1.
use vstd::prelude::*;

use crate::capa1_memoria::{
    texto_error_memoria, asignar, cuenta_de, cuenta_usados, libres, limpiar, pasos_carga, pasos_reserva, soltar,
    ErrorMemoria, GestorMemoria, Pid,
};
use crate::texto::{agregar, decimal, escribir_decimal};
use crate::traza::{bajada, bajar, lema_anotar_concat, lema_anotar_nada, subida, subir, Op, PasoV, Traza, VistaTraza};

verus! {

#[derive(Clone, Copy, PartialEq, Eq, Debug, Structural)]
pub enum Estado {
    Listo,
    Terminado,
}

/// Process control block: private to this layer.
struct Pcb {
    pid: Pid,
    nombre: String,
    estado: Estado,
    marcos: Vec<usize>,
    hechas: u32,
    total: u32,
}

/// Mathematical value of a process control block.
pub struct ProcV {
    pub pid: Pid,
    pub nombre: Seq<char>,
    pub estado: Estado,
    pub marcos: Seq<usize>,
    pub hechas: u32,
    pub total: u32,
}

impl Pcb {
    spec fn v(self) -> ProcV {
        ProcV {
            pid: self.pid,
            nombre: self.nombre@,
            estado: self.estado,
            marcos: self.marcos@,
            hechas: self.hechas,
            total: self.total,
        }
    }
}

/// What the layers above can see of a process.
#[derive(Debug)]
pub struct InfoProceso {
    pub pid: Pid,
    pub nombre: String,
    pub estado: Estado,
    pub paginas: usize,
    pub hechas: u32,
    pub total: u32,
}

pub struct InfoV {
    pub pid: Pid,
    pub nombre: Seq<char>,
    pub estado: Estado,
    pub paginas: usize,
    pub hechas: u32,
    pub total: u32,
}

impl View for InfoProceso {
    type V = InfoV;

    open spec fn view(&self) -> InfoV {
        InfoV {
            pid: self.pid,
            nombre: self.nombre@,
            estado: self.estado,
            paginas: self.paginas,
            hechas: self.hechas,
            total: self.total,
        }
    }
}

/// What the layers above see of the process `p`.
pub open spec fn info_de(p: ProcV) -> InfoV {
    InfoV {
        pid: p.pid,
        nombre: p.nombre,
        estado: p.estado,
        paginas: p.marcos.len() as usize,
        hechas: p.hechas,
        total: p.total,
    }
}

/// Outcome of giving the CPU to a process for one quantum.
#[derive(Debug)]
pub struct EventoCpu {
    pub pid: Pid,
    pub nombre: String,
    pub ejecutadas: u32,
    pub termino: bool,
    pub marcos_liberados: usize,
}

pub struct EventoV {
    pub pid: Pid,
    pub nombre: Seq<char>,
    pub ejecutadas: u32,
    pub termino: bool,
    pub marcos_liberados: usize,
}

/// The events of a round as values.
pub open spec fn vista_eventos(s: Seq<EventoCpu>) -> Seq<EventoV> {
    s.map_values(|e: EventoCpu| e@)
}

impl View for EventoCpu {
    type V = EventoV;

    open spec fn view(&self) -> EventoV {
        EventoV {
            pid: self.pid,
            nombre: self.nombre@,
            ejecutadas: self.ejecutadas,
            termino: self.termino,
            marcos_liberados: self.marcos_liberados,
        }
    }
}

#[derive(Clone, Copy, Debug)]
pub enum ErrorProcesos {
    SinMemoria(ErrorMemoria),
    PidInexistente(Pid),
    Disco(ErrorMemoria),
}

/// How an error of the process layer reads: the error of the layer below
/// it comes from, when there is one.
pub open spec fn texto_error_procesos(e: ErrorProcesos) -> Seq<char> {
    match e {
        ErrorProcesos::SinMemoria(m) => "SinMemoria <- "@ + texto_error_memoria(m),
        ErrorProcesos::PidInexistente(p) => "PidInexistente("@ + decimal(p as nat) + ")"@,
        ErrorProcesos::Disco(m) => "Disco <- "@ + texto_error_memoria(m),
    }
}

impl ErrorProcesos {
    /// The error as text.
    pub fn texto(&self) -> (s: String)
        ensures
            s@ == texto_error_procesos(*self),
    {
        match self {
            ErrorProcesos::SinMemoria(m) => {
                let mut s = "SinMemoria <- ".to_owned();
                agregar(&mut s, m.texto().as_str());
                s
            },
            ErrorProcesos::PidInexistente(p) => {
                let mut s = "PidInexistente(".to_owned();
                escribir_decimal(&mut s, *p as u64);
                agregar(&mut s, ")");
                s
            },
            ErrorProcesos::Disco(m) => {
                let mut s = "Disco <- ".to_owned();
                agregar(&mut s, m.texto().as_str());
                s
            },
        }
    }
}

pub struct GestorProcesos {
    mem: GestorMemoria,
    pcbs: Vec<Pcb>,
    listos: Vec<Pid>,
    sig_pid: Pid,
    quantum: u32,
}

/// Position of the process `pid` among `s`, if it is there.
pub open spec fn buscar(s: Seq<ProcV>, pid: Pid) -> Option<int> {
    if exists|i: int| 0 <= i < s.len() && #[trigger] s[i].pid == pid {
        Some(choose|i: int| 0 <= i < s.len() && #[trigger] s[i].pid == pid)
    } else {
        None
    }
}

/// Whether `pid` names a process that has not finished.
pub open spec fn vivo(s: Seq<ProcV>, pid: Pid) -> bool {
    &&& buscar(s, pid) is Some
    &&& s[buscar(s, pid)->0].estado == Estado::Listo
}

/// `s` without the value `x`.
pub open spec fn sin(s: Seq<Pid>, x: Pid) -> Seq<Pid>
    decreases s.len(),
{
    if s.len() == 0 {
        s
    } else if s.last() == x {
        sin(s.drop_last(), x)
    } else {
        sin(s.drop_last(), x).push(s.last())
    }
}

/// Pids in strictly increasing order, all below `sig`.
pub open spec fn pids_ordenados(s: Seq<ProcV>, sig: Pid) -> bool {
    &&& forall|i: int, j: int| 0 <= i < j < s.len() ==> s[i].pid < s[j].pid
    &&& forall|i: int| 0 <= i < s.len() ==> #[trigger] s[i].pid < sig
}

/// Every frame of a process is owned by it, listed once; finished
/// processes hold no frame, neither listed nor owned.
pub open spec fn marcos_coherentes(s: Seq<ProcV>, d: Seq<Option<Pid>>) -> bool {
    &&& forall|i: int|
        0 <= i < s.len() ==> {
            &&& (#[trigger] s[i]).marcos.no_duplicates()
            &&& s[i].estado == Estado::Terminado ==> s[i].marcos.len() == 0
            &&& forall|k: int|
                0 <= k < s[i].marcos.len() ==> #[trigger] s[i].marcos[k] < d.len() && d[s[i].marcos[k] as int]
                    == Some(s[i].pid)
        }
    &&& forall|m: int|
        0 <= m < d.len() && #[trigger] d[m] is Some && buscar(s, d[m]->0) is Some ==> s[buscar(
            s,
            d[m]->0,
        )->0].estado == Estado::Listo
}

/// Every owned frame is owned by some process: nothing was given to a pid
/// that is not a process (as when the layer starts with all frames free).
pub open spec fn sin_huerfanos(s: Seq<ProcV>, d: Seq<Option<Pid>>) -> bool {
    forall|m: int| 0 <= m < d.len() && #[trigger] d[m] is Some ==> buscar(s, d[m]->0) is Some
}

/// The ready queue holds every unfinished process, once.
pub open spec fn cola_coherente(s: Seq<ProcV>, l: Seq<Pid>) -> bool {
    &&& l.no_duplicates()
    &&& forall|k: int| 0 <= k < l.len() ==> vivo(s, #[trigger] l[k])
    &&& forall|i: int|
        0 <= i < s.len() && (#[trigger] s[i]).estado == Estado::Listo ==> l.contains(s[i].pid)
}

pub open spec fn hechas_validas(s: Seq<ProcV>) -> bool {
    forall|i: int| 0 <= i < s.len() ==> (#[trigger] s[i]).hechas <= s[i].total
}

proof fn lema_buscar(s: Seq<ProcV>, pid: Pid, i: int)
    requires
        forall|a: int, b: int| 0 <= a < b < s.len() ==> s[a].pid < s[b].pid,
        0 <= i < s.len(),
        s[i].pid == pid,
    ensures
        buscar(s, pid) == Some(i),
{
    let c = choose|c: int| 0 <= c < s.len() && #[trigger] s[c].pid == pid;
    assert(0 <= c < s.len() && s[c].pid == pid);
    if c < i {
        assert(s[c].pid < s[i].pid);
    } else if c > i {
        assert(s[i].pid < s[c].pid);
    }
}

proof fn lema_buscar_push(s: Seq<ProcV>, p: ProcV, x: Pid)
    requires
        pids_ordenados(s, p.pid),
    ensures
        buscar(s.push(p), x) == if x == p.pid {
            Some(s.len() as int)
        } else {
            buscar(s, x)
        },
{
    let s2 = s.push(p);
    if x == p.pid {
        lema_buscar(s2, x, s.len() as int);
    } else {
        match buscar(s, x) {
            Some(i) => {
                assert(s2[i] == s[i]);
                lema_buscar(s2, x, i);
            },
            None => {
                assert forall|i: int| 0 <= i < s2.len() implies #[trigger] s2[i].pid != x by {
                    if i < s.len() {
                        assert(s2[i] == s[i]);
                        if s[i].pid == x {
                            lema_buscar(s, x, i);
                        }
                    }
                }
            },
        }
    }
}

/// The free frames are increasing, below the size of the map, and free.
proof fn lema_libres(d: Seq<Option<Pid>>)
    requires
        d.len() <= usize::MAX,
    ensures
        forall|k: int| 0 <= k < libres(d).len() ==> #[trigger] libres(d)[k] < d.len() && d[libres(d)[k] as int] is None,
        forall|k: int, j: int| 0 <= k < j < libres(d).len() ==> libres(d)[k] < libres(d)[j],
{
    crate::capa1_memoria::lema_libres_hasta(d, d.len() as int);
}

proof fn lema_buscar_mismos_pids(s: Seq<ProcV>, s2: Seq<ProcV>, x: Pid)
    requires
        forall|a: int, b: int| 0 <= a < b < s.len() ==> s[a].pid < s[b].pid,
        s2.len() == s.len(),
        forall|k: int| 0 <= k < s.len() ==> #[trigger] s2[k].pid == s[k].pid,
    ensures
        buscar(s2, x) == buscar(s, x),
{
    match buscar(s, x) {
        Some(i) => {
            lema_buscar(s, x, i);
            assert(s2[i].pid == x);
            lema_buscar(s2, x, i);
        },
        None => {
            assert forall|i: int| 0 <= i < s2.len() implies #[trigger] s2[i].pid != x by {
                if s2[i].pid == x {
                    assert(s[i].pid == x);
                    lema_buscar(s, x, i);
                }
            }
        },
    }
}

proof fn lema_sin(l: Seq<Pid>, x: Pid)
    ensures
        forall|y: Pid| #[trigger] sin(l, x).contains(y) <==> (l.contains(y) && y != x),
        l.no_duplicates() ==> sin(l, x).no_duplicates(),
        !l.contains(x) ==> sin(l, x) == l,
    decreases l.len(),
{
    if l.len() > 0 {
        let r = l.drop_last();
        lema_sin(r, x);
        assert forall|y: Pid| l.contains(y) <==> (r.contains(y) || y == l.last()) by {
            if l.contains(y) {
                let k = choose|k: int| 0 <= k < l.len() && l[k] == y;
                if k < r.len() {
                    assert(r[k] == y);
                }
            }
            if r.contains(y) {
                let k = choose|k: int| 0 <= k < r.len() && r[k] == y;
                assert(l[k] == y);
            }
            if y == l.last() {
                assert(l[l.len() - 1] == y);
            }
        }
        if l.last() != x {
            let sr = sin(r, x);
            assert forall|y: Pid| sr.push(l.last()).contains(y) <==> (sr.contains(y) || y == l.last()) by {
                if sr.push(l.last()).contains(y) {
                    let k = choose|k: int| 0 <= k < sr.len() + 1 && sr.push(l.last())[k] == y;
                    if k < sr.len() {
                        assert(sr[k] == y);
                    }
                }
                if sr.contains(y) {
                    let k = choose|k: int| 0 <= k < sr.len() && sr[k] == y;
                    assert(sr.push(l.last())[k] == y);
                }
                if y == l.last() {
                    assert(sr.push(l.last())[sr.len() as int] == y);
                }
            }
            if l.no_duplicates() {
                assert(r.no_duplicates());
                assert(!r.contains(l.last())) by {
                    if r.contains(l.last()) {
                        let k = choose|k: int| 0 <= k < r.len() && r[k] == l.last();
                        assert(l[k] == l[l.len() - 1]);
                    }
                }
                assert forall|a: int, b: int| 0 <= a < b < sr.len() + 1 implies sr.push(l.last())[a] != sr.push(
                    l.last(),
                )[b] by {
                    if b == sr.len() {
                        assert(sr.contains(sr[a]));
                    }
                }
            }
            assert forall|y: Pid| #[trigger] sin(l, x).contains(y) <==> (l.contains(y) && y != x) by {
                assert(sin(l, x) == sr.push(l.last()));
                assert(sr.push(l.last()).contains(y) <==> (sr.contains(y) || y == l.last()));
                assert(sr.contains(y) <==> (r.contains(y) && y != x));
                assert(l.contains(y) <==> (r.contains(y) || y == l.last()));
            }
            if !l.contains(x) {
                assert(!r.contains(x)) by {
                    if r.contains(x) {
                        let k = choose|k: int| 0 <= k < r.len() && r[k] == x;
                        assert(l[k] == x);
                    }
                }
                assert(l =~= r.push(l.last()));
            }
        } else {
            if l.no_duplicates() {
                assert(r.no_duplicates());
            }
            assert(l.contains(x)) by {
                assert(l[l.len() - 1] == x);
            }
            assert forall|y: Pid| #[trigger] sin(l, x).contains(y) <==> (l.contains(y) && y != x) by {
                assert(sin(l, x) == sin(r, x));
            }
        }
    }
}

/// Mathematical value of the process layer, with the memory below it.
pub struct VistaProcesos {
    pub procs: Seq<ProcV>,
    pub listos: Seq<Pid>,
    pub sig_pid: Pid,
    pub quantum: u32,
    pub duenos: Seq<Option<Pid>>,
    pub ram: Seq<u32>,
    pub disco: Seq<String>,
    pub ciclos: u64,
}

/// What holds of the process layer at every moment: pids in order, frames
/// coherent with their owners, the ready queue coherent with the processes,
/// no process beyond its instructions.
pub open spec fn valida(v: VistaProcesos) -> bool {
    &&& pids_ordenados(v.procs, v.sig_pid)
    &&& marcos_coherentes(v.procs, v.duenos)
    &&& cola_coherente(v.procs, v.listos)
    &&& hechas_validas(v.procs)
    &&& v.duenos.len() == v.ram.len()
    &&& v.duenos.len() <= usize::MAX
}

/// Mathematical state that a round of Round Robin works on.
pub struct EstadoRR {
    pub procs: Seq<ProcV>,
    pub listos: Seq<Pid>,
    pub duenos: Seq<Option<Pid>>,
    pub ram: Seq<u32>,
    pub ciclos: int,
    pub traza: VistaTraza,
}

/// Frame written by the `j`-th instruction (from 0) of a process that had
/// done `h` instructions, over its frames `ms`.
pub open spec fn marco_de(ms: Seq<usize>, h: int, j: int) -> usize {
    ms[(h + j) % (ms.len() as int)]
}

/// RAM after `j` instructions of a process with frames `ms` that had done
/// `h` instructions, starting at clock `c`: each one writes the clock it got.
pub open spec fn ram_tras(ram: Seq<u32>, ms: Seq<usize>, h: int, c: int, j: nat) -> Seq<u32>
    decreases j,
{
    if j == 0 {
        ram
    } else {
        ram_tras(ram, ms, h, c, (j - 1) as nat).update(
            marco_de(ms, h, j - 1) as int,
            (c + j) as u32,
        )
    }
}

/// Steps recorded by `j` instructions: a CPU cycle and a write per instruction.
pub open spec fn pasos_instr(ms: Seq<usize>, h: int, c: int, j: nat) -> Seq<PasoV>
    decreases j,
{
    if j == 0 {
        Seq::empty()
    } else {
        let m = marco_de(ms, h, j - 1);
        pasos_instr(ms, h, c, (j - 1) as nat) + seq![
            bajada(2, Op::CicloCpu),
            bajada(1, Op::Tick),
            bajada(2, Op::Escribir { marco: m, valor: (c + j) as u64 }),
            bajada(1, Op::EscribirRam { marco: m, valor: (c + j) as u32 as u64 }),
        ]
    }
}

pub open spec fn minimo(a: int, b: int) -> int {
    if a <= b {
        a
    } else {
        b
    }
}

/// Instructions that process `p` runs in a quantum `q`.
pub open spec fn a_ejecutar(p: ProcV, q: u32) -> int {
    minimo(p.total - p.hechas, q as int)
}

/// The process `pid` gets the CPU for one quantum `q`: it runs its pending
/// instructions up to `q`; if it has then done them all it finishes and its
/// frames are freed, otherwise it goes back to the end of the ready queue.
pub open spec fn turno_de(s: EstadoRR, pid: Pid, q: u32) -> (EstadoRR, EventoV) {
    let i = buscar(s.procs, pid)->0;
    let p = s.procs[i];
    let a = a_ejecutar(p, q);
    let h1 = p.hechas + a;
    let termino = h1 >= p.total;
    let n = if termino {
        cuenta_de(s.duenos, pid)
    } else {
        0
    };
    let pasos = pasos_instr(p.marcos, p.hechas as int, s.ciclos, a as nat) + if termino {
        seq![bajada(2, Op::Liberar { pid }), subida(1, Op::MarcosLibresDeNuevo { n: n as usize })]
    } else {
        Seq::empty()
    };
    let p1 = ProcV {
        hechas: h1 as u32,
        estado: if termino {
            Estado::Terminado
        } else {
            p.estado
        },
        marcos: if termino {
            Seq::empty()
        } else {
            p.marcos
        },
        ..p
    };
    (
        EstadoRR {
            procs: s.procs.update(i, p1),
            listos: if termino {
                s.listos
            } else {
                s.listos.push(pid)
            },
            duenos: if termino {
                soltar(s.duenos, pid)
            } else {
                s.duenos
            },
            ram: ram_tras(s.ram, p.marcos, p.hechas as int, s.ciclos, a as nat),
            ciclos: s.ciclos + a,
            traza: s.traza.anotar(pasos),
        },
        EventoV {
            pid,
            nombre: p.nombre,
            ejecutadas: a as u32,
            termino,
            marcos_liberados: n as usize,
        },
    )
}

/// A round of Round Robin over the processes of `turno`, in order.
pub open spec fn ronda(s: EstadoRR, turno: Seq<Pid>, q: u32) -> (EstadoRR, Seq<EventoV>)
    decreases turno.len(),
{
    if turno.len() == 0 {
        (s, Seq::empty())
    } else {
        let (s1, ev) = ronda(s, turno.drop_last(), q);
        let (s2, e) = turno_de(s1, turno.last(), q);
        (s2, ev.push(e))
    }
}

/// Instructions run in a round over `turno` by processes as they are in `procs`.
pub open spec fn trabajo(procs: Seq<ProcV>, turno: Seq<Pid>, q: u32) -> int
    decreases turno.len(),
{
    if turno.len() == 0 {
        0
    } else {
        trabajo(procs, turno.drop_last(), q) + a_ejecutar(
            procs[buscar(procs, turno.last())->0],
            q,
        )
    }
}

/// A round of Round Robin creates no orphan frame, and the processes it
/// knows stay the same.
pub proof fn lema_ronda_sin_huerfanos(s: EstadoRR, turno: Seq<Pid>, q: u32)
    requires
        sin_huerfanos(s.procs, s.duenos),
        forall|k: int| 0 <= k < turno.len() ==> buscar(s.procs, #[trigger] turno[k]) is Some,
    ensures
        sin_huerfanos(ronda(s, turno, q).0.procs, ronda(s, turno, q).0.duenos),
        ronda(s, turno, q).0.procs.len() == s.procs.len(),
        forall|k: int| 0 <= k < s.procs.len() ==> #[trigger] ronda(s, turno, q).0.procs[k].pid == s.procs[k].pid,
    decreases turno.len(),
{
    if turno.len() > 0 {
        let r = turno.drop_last();
        assert forall|k: int| 0 <= k < r.len() implies buscar(s.procs, #[trigger] r[k]) is Some by {
            assert(r[k] == turno[k]);
        }
        lema_ronda_sin_huerfanos(s, r, q);
        let s1 = ronda(s, r, q).0;
        let pid = turno.last();
        assert(buscar(s.procs, turno[turno.len() - 1]) is Some);
        let j = choose|j: int| 0 <= j < s.procs.len() && #[trigger] s.procs[j].pid == pid;
        assert(s1.procs[j].pid == pid);
        assert(buscar(s1.procs, pid) is Some);
        let i = buscar(s1.procs, pid)->0;
        let s2 = ronda(s, turno, q).0;
        assert(s2 == turno_de(s1, pid, q).0);
        assert forall|k: int| 0 <= k < s1.procs.len() implies #[trigger] s2.procs[k].pid == s1.procs[k].pid by {}
        assert forall|m: int| 0 <= m < s2.duenos.len() && #[trigger] s2.duenos[m] is Some implies buscar(
            s2.procs,
            s2.duenos[m]->0,
        ) is Some by {
            let x = s2.duenos[m]->0;
            assert(s1.duenos[m] == s2.duenos[m]);
            let a = choose|a: int| 0 <= a < s1.procs.len() && #[trigger] s1.procs[a].pid == x;
            assert(s2.procs[a].pid == x);
        }
    }
}

/// Instructions done by all the processes of `s`.
pub open spec fn suma_hechas(s: Seq<ProcV>) -> int
    decreases s.len(),
{
    if s.len() == 0 {
        0
    } else {
        suma_hechas(s.drop_last()) + s.last().hechas
    }
}

/// Replacing one process changes the instructions done by all by the
/// difference between the two.
pub proof fn lema_suma_update(s: Seq<ProcV>, i: int, p: ProcV)
    requires
        0 <= i < s.len(),
    ensures
        suma_hechas(s.update(i, p)) == suma_hechas(s) - s[i].hechas + p.hechas,
    decreases s.len(),
{
    if i < s.len() - 1 {
        assert(s.update(i, p).drop_last() =~= s.drop_last().update(i, p));
        lema_suma_update(s.drop_last(), i, p);
    } else {
        assert(s.update(i, p).drop_last() =~= s.drop_last());
    }
}

/// A round of Round Robin over distinct processes keeps the processes
/// (their number, places and pids) and every one within its instructions;
/// the clock and the instructions done by all processes both grow by the
/// instructions that the round runs; a process outside the round is left
/// as it was.
pub proof fn lema_ronda_cuenta(s: EstadoRR, turno: Seq<Pid>, q: u32)
    requires
        forall|a: int, b: int| 0 <= a < b < s.procs.len() ==> s.procs[a].pid < s.procs[b].pid,
        hechas_validas(s.procs),
        turno.no_duplicates(),
        forall|k: int| 0 <= k < turno.len() ==> buscar(s.procs, #[trigger] turno[k]) is Some,
    ensures
        ({
            let s2 = ronda(s, turno, q).0;
            &&& s2.procs.len() == s.procs.len()
            &&& forall|k: int| 0 <= k < s.procs.len() ==> #[trigger] s2.procs[k].pid == s.procs[k].pid
            &&& hechas_validas(s2.procs)
            &&& trabajo(s.procs, turno, q) >= 0
            &&& s2.ciclos == s.ciclos + trabajo(s.procs, turno, q)
            &&& suma_hechas(s2.procs) == suma_hechas(s.procs) + trabajo(s.procs, turno, q)
            &&& forall|x: Pid|
                buscar(s.procs, x) is Some ==> #[trigger] s2.procs[buscar(s.procs, x)->0] == if turno.contains(x) {
                    avanzar(s.procs[buscar(s.procs, x)->0], q)
                } else {
                    s.procs[buscar(s.procs, x)->0]
                }
        }),
    decreases turno.len(),
{
    if turno.len() > 0 {
        let r = turno.drop_last();
        let pid = turno.last();
        assert forall|k: int| 0 <= k < r.len() implies buscar(s.procs, #[trigger] r[k]) is Some by {
            assert(r[k] == turno[k]);
        }
        assert forall|a: int, b: int| 0 <= a < b < r.len() implies r[a] != r[b] by {
            assert(r[a] == turno[a] && r[b] == turno[b]);
        }
        lema_ronda_cuenta(s, r, q);
        let s1 = ronda(s, r, q).0;
        assert(buscar(s.procs, turno[turno.len() - 1]) is Some);
        let i0 = buscar(s.procs, pid)->0;
        assert(!r.contains(pid)) by {
            if r.contains(pid) {
                let j = choose|j: int| 0 <= j < r.len() && r[j] == pid;
                assert(turno[j] == turno[turno.len() - 1]);
            }
        }
        assert forall|a: int, b: int| 0 <= a < b < s1.procs.len() implies s1.procs[a].pid < s1.procs[b].pid by {
            assert(s1.procs[a].pid == s.procs[a].pid && s1.procs[b].pid == s.procs[b].pid);
        }
        lema_buscar_mismos_pids(s.procs, s1.procs, pid);
        let p = s1.procs[i0];
        assert(p == s.procs[i0]);
        assert(p.hechas <= p.total);
        let s2 = turno_de(s1, pid, q).0;
        assert(ronda(s, turno, q).0 == s2);
        lema_suma_update(s1.procs, i0, s2.procs[i0]);
        assert(s2.procs == s1.procs.update(i0, s2.procs[i0]));
        assert forall|x: Pid|
            buscar(s.procs, x) is Some implies #[trigger] s2.procs[buscar(s.procs, x)->0] == if turno.contains(x) {
                avanzar(s.procs[buscar(s.procs, x)->0], q)
            } else {
                s.procs[buscar(s.procs, x)->0]
            } by {
            let ix = buscar(s.procs, x)->0;
            assert(s.procs[ix].pid == x);
            if x == pid {
                assert(turno.contains(x)) by {
                    assert(turno[turno.len() - 1] == pid);
                }
                assert(ix == i0);
            } else {
                assert(ix != i0);
                assert(turno.contains(x) == r.contains(x)) by {
                    if turno.contains(x) {
                        let j = choose|j: int| 0 <= j < turno.len() && turno[j] == x;
                        assert(j < r.len());
                        assert(r[j] == x);
                    }
                    if r.contains(x) {
                        let j = choose|j: int| 0 <= j < r.len() && r[j] == x;
                        assert(turno[j] == x);
                    }
                }
            }
        }
        assert forall|k: int| 0 <= k < s2.procs.len() implies (#[trigger] s2.procs[k]).hechas <= s2.procs[k].total by {
            if k != i0 {
                assert(s2.procs[k] == s1.procs[k]);
            }
        }
    }
}

/// Every frame owned by a process is one of the frames it lists.
pub open spec fn marcos_completos(s: Seq<ProcV>, d: Seq<Option<Pid>>) -> bool {
    forall|i: int, m: int|
        #![trigger s[i], d[m]]
        0 <= i < s.len() && 0 <= m < d.len() && d[m] == Some(s[i].pid) ==> s[i].marcos.contains(m as usize)
}

/// A round of Round Robin keeps every frame owned by a process among the
/// frames it lists.
pub proof fn lema_ronda_completos(s: EstadoRR, turno: Seq<Pid>, q: u32)
    requires
        forall|a: int, b: int| 0 <= a < b < s.procs.len() ==> s.procs[a].pid < s.procs[b].pid,
        hechas_validas(s.procs),
        turno.no_duplicates(),
        forall|k: int| 0 <= k < turno.len() ==> buscar(s.procs, #[trigger] turno[k]) is Some,
        marcos_completos(s.procs, s.duenos),
    ensures
        marcos_completos(ronda(s, turno, q).0.procs, ronda(s, turno, q).0.duenos),
    decreases turno.len(),
{
    if turno.len() > 0 {
        let r = turno.drop_last();
        let pid = turno.last();
        assert forall|k: int| 0 <= k < r.len() implies buscar(s.procs, #[trigger] r[k]) is Some by {
            assert(r[k] == turno[k]);
        }
        assert forall|a: int, b: int| 0 <= a < b < r.len() implies r[a] != r[b] by {
            assert(r[a] == turno[a] && r[b] == turno[b]);
        }
        lema_ronda_completos(s, r, q);
        lema_ronda_cuenta(s, r, q);
        let s1 = ronda(s, r, q).0;
        assert(buscar(s.procs, turno[turno.len() - 1]) is Some);
        assert forall|a: int, b: int| 0 <= a < b < s1.procs.len() implies s1.procs[a].pid < s1.procs[b].pid by {
            assert(s1.procs[a].pid == s.procs[a].pid && s1.procs[b].pid == s.procs[b].pid);
        }
        lema_buscar_mismos_pids(s.procs, s1.procs, pid);
        let i0 = buscar(s1.procs, pid)->0;
        assert(s1.procs[i0].pid == pid);
        let s2 = turno_de(s1, pid, q).0;
        assert(ronda(s, turno, q).0 == s2);
        assert forall|i: int, m: int|
            0 <= i < s2.procs.len() && 0 <= m < s2.duenos.len() && #[trigger] s2.duenos[m] == Some(
                (#[trigger] s2.procs[i]).pid,
            ) implies s2.procs[i].marcos.contains(m as usize) by {
            if i == i0 {
                assert(s1.duenos[m] == Some(s1.procs[i].pid));
            } else {
                assert(s2.procs[i] == s1.procs[i]);
                assert(s1.procs[i].pid != pid) by {
                    if i < i0 {
                        assert(s1.procs[i].pid < s1.procs[i0].pid);
                    } else {
                        assert(s1.procs[i0].pid < s1.procs[i].pid);
                    }
                }
                assert(s2.duenos[m] == s1.duenos[m]);
                assert(s1.duenos[m] == Some(s1.procs[i].pid));
            }
        }
    }
}

/// What one turn of the CPU, with quantum `q`, does to the process `p`: it
/// runs its pending instructions up to `q`, and if none is left it
/// finishes and lists no frame.
pub open spec fn avanzar(p: ProcV, q: u32) -> ProcV {
    let h1 = p.hechas + a_ejecutar(p, q);
    let termino = h1 >= p.total;
    ProcV {
        hechas: h1 as u32,
        estado: if termino {
            Estado::Terminado
        } else {
            p.estado
        },
        marcos: if termino {
            Seq::empty()
        } else {
            p.marcos
        },
        ..p
    }
}

/// The processes of `turno` that a round leaves unfinished, in order.
pub open spec fn siguen(procs: Seq<ProcV>, turno: Seq<Pid>, q: u32) -> Seq<Pid>
    decreases turno.len(),
{
    if turno.len() == 0 {
        Seq::empty()
    } else {
        let x = turno.last();
        siguen(procs, turno.drop_last(), q) + if avanzar(procs[buscar(procs, x)->0], q).estado == Estado::Listo {
            seq![x]
        } else {
            Seq::<Pid>::empty()
        }
    }
}

proof fn lema_siguen(procs: Seq<ProcV>, turno: Seq<Pid>, q: u32)
    requires
        turno.no_duplicates(),
    ensures
        siguen(procs, turno, q).no_duplicates(),
        forall|x: Pid|
            #[trigger] siguen(procs, turno, q).contains(x) <==> turno.contains(x) && avanzar(
                procs[buscar(procs, x)->0],
                q,
            ).estado == Estado::Listo,
    decreases turno.len(),
{
    if turno.len() > 0 {
        let r = turno.drop_last();
        let x = turno.last();
        assert forall|a: int, b: int| 0 <= a < b < r.len() implies r[a] != r[b] by {
            assert(r[a] == turno[a] && r[b] == turno[b]);
        }
        lema_siguen(procs, r, q);
        let a = siguen(procs, r, q);
        let sigue = avanzar(procs[buscar(procs, x)->0], q).estado == Estado::Listo;
        let b = if sigue {
            seq![x]
        } else {
            Seq::<Pid>::empty()
        };
        assert(!r.contains(x)) by {
            if r.contains(x) {
                let j = choose|j: int| 0 <= j < r.len() && r[j] == x;
                assert(turno[j] == turno[turno.len() - 1]);
            }
        }
        assert(siguen(procs, turno, q) == a + b);
        assert forall|y: Pid| #[trigger] (a + b).contains(y) <==> turno.contains(y) && avanzar(
            procs[buscar(procs, y)->0],
            q,
        ).estado == Estado::Listo by {
            if (a + b).contains(y) {
                let j = choose|j: int| 0 <= j < (a + b).len() && (a + b)[j] == y;
                if j < a.len() {
                    assert(a[j] == y);
                    assert(a.contains(y));
                    let k = choose|k: int| 0 <= k < r.len() && r[k] == y;
                    assert(turno[k] == y);
                } else {
                    assert(turno[turno.len() - 1] == y);
                }
            }
            if turno.contains(y) && avanzar(procs[buscar(procs, y)->0], q).estado == Estado::Listo {
                let k = choose|k: int| 0 <= k < turno.len() && turno[k] == y;
                if k < r.len() {
                    assert(r[k] == y);
                    assert(a.contains(y));
                    let j = choose|j: int| 0 <= j < a.len() && a[j] == y;
                    assert((a + b)[j] == y);
                } else {
                    assert((a + b)[a.len() as int] == y);
                }
            }
        }
        assert forall|i: int, j: int| 0 <= i < j < (a + b).len() implies (a + b)[i] != (a + b)[j] by {
            if j >= a.len() {
                if i < a.len() {
                    assert(a.contains(a[i]));
                    assert(a[i] != x);
                }
            } else {
                assert((a + b)[i] == a[i] && (a + b)[j] == a[j]);
            }
        }
    }
}

/// A round sends back to the end of the queue, in order, the processes of
/// the round that it leaves unfinished.
pub proof fn lema_ronda_cola(s: EstadoRR, turno: Seq<Pid>, q: u32)
    requires
        forall|a: int, b: int| 0 <= a < b < s.procs.len() ==> s.procs[a].pid < s.procs[b].pid,
        hechas_validas(s.procs),
        turno.no_duplicates(),
        forall|k: int| 0 <= k < turno.len() ==> vivo(s.procs, #[trigger] turno[k]),
    ensures
        ronda(s, turno, q).0.listos == s.listos + siguen(s.procs, turno, q),
    decreases turno.len(),
{
    assert forall|k: int| 0 <= k < turno.len() implies buscar(s.procs, #[trigger] turno[k]) is Some by {
        assert(vivo(s.procs, turno[k]));
    }
    if turno.len() == 0 {
        assert(s.listos + siguen(s.procs, turno, q) =~= s.listos);
    } else {
        let r = turno.drop_last();
        let pid = turno.last();
        assert forall|k: int| 0 <= k < r.len() implies vivo(s.procs, #[trigger] r[k]) by {
            assert(r[k] == turno[k]);
        }
        assert forall|a: int, b: int| 0 <= a < b < r.len() implies r[a] != r[b] by {
            assert(r[a] == turno[a] && r[b] == turno[b]);
        }
        lema_ronda_cola(s, r, q);
        lema_ronda_cuenta(s, r, q);
        let s1 = ronda(s, r, q).0;
        assert(vivo(s.procs, turno[turno.len() - 1]));
        let i0 = buscar(s.procs, pid)->0;
        assert(!r.contains(pid)) by {
            if r.contains(pid) {
                let j = choose|j: int| 0 <= j < r.len() && r[j] == pid;
                assert(turno[j] == turno[turno.len() - 1]);
            }
        }
        assert forall|a: int, b: int| 0 <= a < b < s1.procs.len() implies s1.procs[a].pid < s1.procs[b].pid by {
            assert(s1.procs[a].pid == s.procs[a].pid && s1.procs[b].pid == s.procs[b].pid);
        }
        lema_buscar_mismos_pids(s.procs, s1.procs, pid);
        assert(s1.procs[i0] == s.procs[i0]);
        let p = s.procs[i0];
        assert(p.estado == Estado::Listo);
        let s2 = turno_de(s1, pid, q).0;
        assert(ronda(s, turno, q).0 == s2);
        if avanzar(p, q).estado == Estado::Listo {
            assert(s2.listos == s1.listos.push(pid));
            assert(s.listos + siguen(s.procs, turno, q) =~= (s.listos + siguen(s.procs, r, q)).push(pid));
        } else {
            assert(s2.listos == s1.listos);
            assert(s.listos + siguen(s.procs, turno, q) =~= s.listos + siguen(s.procs, r, q));
        }
    }
}

/// Rounds that a process with `pend` instructions pending still needs with
/// quantum `q`: one if they fit in a quantum (a process with none pending
/// still needs its turn to finish), one more per further quantum.
pub open spec fn rondas_pendientes(pend: int, q: u32) -> nat
    decreases pend,
{
    if q == 0 || pend <= q as int {
        1
    } else {
        1 + rondas_pendientes(pend - q, q)
    }
}

/// The rounds still needed are the pending instructions divided by the
/// quantum, rounded up, and at least one.
pub proof fn lema_rondas_pendientes(pend: int, q: u32)
    requires
        q >= 1,
        pend >= 0,
    ensures
        rondas_pendientes(pend, q) == if pend == 0 {
            1
        } else {
            (pend + q - 1) / (q as int)
        },
    decreases pend,
{
    if pend > q as int {
        lema_rondas_pendientes(pend - q, q);
        vstd::arithmetic::div_mod::lemma_div_plus_one(pend - 1, q as int);
    } else if pend > 0 {
        assert((pend + q - 1) / (q as int) == 1) by (nonlinear_arith)
            requires
                q >= 1,
                q <= pend + q - 1 < 2 * q,
        ;
    }
}

/// Every unfinished process of `procs` needs at most `n` more rounds.
pub open spec fn cabe_en(procs: Seq<ProcV>, q: u32, n: nat) -> bool {
    forall|j: int|
        0 <= j < procs.len() && (#[trigger] procs[j]).estado == Estado::Listo ==> rondas_pendientes(
            procs[j].total - procs[j].hechas,
            q,
        ) <= n
}

/// What a round of Round Robin needs and keeps: pids in order, no process
/// beyond its instructions, the ready queue coherent with the processes,
/// finished processes listing no frame.
pub open spec fn apta_rr(procs: Seq<ProcV>, listos: Seq<Pid>) -> bool {
    &&& forall|a: int, b: int| 0 <= a < b < procs.len() ==> procs[a].pid < procs[b].pid
    &&& hechas_validas(procs)
    &&& cola_coherente(procs, listos)
    &&& forall|i: int| 0 <= i < procs.len() && (#[trigger] procs[i]).estado == Estado::Terminado ==> procs[i].marcos.len() == 0
}

/// A round of Round Robin over the whole ready queue brings every
/// unfinished process one round closer to its end: where each needed at
/// most `n` rounds, each now needs at most `n - 1`.
pub proof fn lema_ronda_acerca(s: EstadoRR, q: u32, n: nat)
    requires
        apta_rr(s.procs, s.listos),
        q >= 1,
        n >= 1,
        cabe_en(s.procs, q, n),
    ensures
        ({
            let s2 = ronda(EstadoRR { listos: Seq::empty(), ..s }, s.listos, q).0;
            &&& apta_rr(s2.procs, s2.listos)
            &&& cabe_en(s2.procs, q, (n - 1) as nat)
            &&& s2.procs.len() == s.procs.len()
        }),
{
    let s0 = EstadoRR { listos: Seq::empty(), ..s };
    let turno = s.listos;
    assert forall|k: int| 0 <= k < turno.len() implies buscar(s0.procs, #[trigger] turno[k]) is Some by {
        assert(vivo(s.procs, turno[k]));
    }
    lema_ronda_cuenta(s0, turno, q);
    lema_ronda_cola(s0, turno, q);
    lema_siguen(s.procs, turno, q);
    let s2 = ronda(s0, turno, q).0;
    let l2 = siguen(s.procs, turno, q);
    assert(s2.listos =~= l2);
    assert forall|k: int| 0 <= k < l2.len() implies vivo(s2.procs, #[trigger] l2[k]) by {
        let x = l2[k];
        assert(l2.contains(x));
        lema_buscar_mismos_pids(s.procs, s2.procs, x);
    }
    assert forall|i: int| 0 <= i < s2.procs.len() && (#[trigger] s2.procs[i]).estado == Estado::Listo implies l2.contains(
        s2.procs[i].pid,
    ) by {
        let x = s.procs[i].pid;
        lema_buscar(s.procs, x, i);
        if !turno.contains(x) {
            assert(s2.procs[i] == s.procs[i]);
        }
    }
    assert forall|i: int| 0 <= i < s2.procs.len() && (#[trigger] s2.procs[i]).estado == Estado::Terminado implies s2.procs[i].marcos.len() == 0 by {
        let x = s.procs[i].pid;
        lema_buscar(s.procs, x, i);
        if turno.contains(x) {
            let k = choose|k: int| 0 <= k < turno.len() && turno[k] == x;
            assert(vivo(s.procs, turno[k]));
        }
    }
    assert forall|j: int| 0 <= j < s2.procs.len() && (#[trigger] s2.procs[j]).estado == Estado::Listo implies rondas_pendientes(
        s2.procs[j].total - s2.procs[j].hechas,
        q,
    ) <= (n - 1) as nat by {
        let x = s.procs[j].pid;
        lema_buscar(s.procs, x, j);
        let p = s.procs[j];
        if turno.contains(x) {
            let k = choose|k: int| 0 <= k < turno.len() && turno[k] == x;
            assert(vivo(s.procs, turno[k]));
            assert(p.estado == Estado::Listo);
            assert(p.total - p.hechas > q);
        } else {
            assert(s2.procs[j] == p);
        }
    }
}

/// A round of Round Robin keeps every process at its place, with its pid
/// and its name.
pub proof fn lema_ronda_conserva_nombres(s: EstadoRR, turno: Seq<Pid>, q: u32)
    requires
        forall|k: int| 0 <= k < turno.len() ==> buscar(s.procs, #[trigger] turno[k]) is Some,
    ensures
        ronda(s, turno, q).0.procs.len() == s.procs.len(),
        forall|i: int|
            0 <= i < s.procs.len() ==> #[trigger] ronda(s, turno, q).0.procs[i].pid == s.procs[i].pid
                && ronda(s, turno, q).0.procs[i].nombre == s.procs[i].nombre,
    decreases turno.len(),
{
    if turno.len() > 0 {
        let r = turno.drop_last();
        let pid = turno.last();
        assert forall|k: int| 0 <= k < r.len() implies buscar(s.procs, #[trigger] r[k]) is Some by {
            assert(r[k] == turno[k]);
        }
        lema_ronda_conserva_nombres(s, r, q);
        let s1 = ronda(s, r, q).0;
        assert(buscar(s.procs, turno[turno.len() - 1]) is Some);
        let j = choose|j: int| 0 <= j < s.procs.len() && #[trigger] s.procs[j].pid == pid;
        assert(s1.procs[j].pid == pid);
        assert(buscar(s1.procs, pid) is Some);
        let s2 = ronda(s, turno, q).0;
        assert(s2 == turno_de(s1, pid, q).0);
        assert forall|i: int| 0 <= i < s.procs.len() implies #[trigger] s2.procs[i].pid == s.procs[i].pid
            && s2.procs[i].nombre == s.procs[i].nombre by {
            assert(ronda(s, r, q).0.procs[i].pid == s.procs[i].pid);
            assert(s1.procs[i].nombre == s.procs[i].nombre);
            assert(i == buscar(s1.procs, pid)->0 || s2.procs[i] == s1.procs[i]);
        }
    }
}

/// Every event of a round reports the process whose turn it is: the `k`-th
/// event carries the pid `turno[k]` and the name of the process with that
/// pid.
pub proof fn ley_ronda_nombres(s: EstadoRR, turno: Seq<Pid>, q: u32)
    requires
        forall|a: int, b: int| 0 <= a < b < s.procs.len() ==> s.procs[a].pid < s.procs[b].pid,
        forall|k: int| 0 <= k < turno.len() ==> buscar(s.procs, #[trigger] turno[k]) is Some,
    ensures
        ronda(s, turno, q).1.len() == turno.len(),
        forall|k: int|
            0 <= k < turno.len() ==> (#[trigger] ronda(s, turno, q).1[k]).pid == turno[k] && ronda(s, turno, q).1[k].nombre
                == s.procs[buscar(s.procs, turno[k])->0].nombre,
    decreases turno.len(),
{
    if turno.len() > 0 {
        let r = turno.drop_last();
        let pid = turno.last();
        assert forall|k: int| 0 <= k < r.len() implies buscar(s.procs, #[trigger] r[k]) is Some by {
            assert(r[k] == turno[k]);
        }
        ley_ronda_nombres(s, r, q);
        lema_ronda_conserva_nombres(s, r, q);
        let s1 = ronda(s, r, q).0;
        let ev1 = ronda(s, r, q).1;
        assert forall|a: int, b: int| 0 <= a < b < s1.procs.len() implies s1.procs[a].pid < s1.procs[b].pid by {
            assert(s1.procs[a].pid == s.procs[a].pid && s1.procs[b].pid == s.procs[b].pid);
        }
        lema_buscar_mismos_pids(s.procs, s1.procs, pid);
        assert(buscar(s.procs, turno[turno.len() - 1]) is Some);
        let i0 = buscar(s.procs, pid)->0;
        assert(s1.procs[i0].nombre == s.procs[i0].nombre);
        let ev = ronda(s, turno, q).1;
        assert(ev == ev1.push(turno_de(s1, pid, q).1));
        assert forall|k: int| 0 <= k < turno.len() implies (#[trigger] ev[k]).pid == turno[k] && ev[k].nombre
            == s.procs[buscar(s.procs, turno[k])->0].nombre by {
            if k < r.len() {
                assert(ev[k] == ev1[k]);
                assert(r[k] == turno[k]);
            }
        }
    }
}

/// In a round over distinct processes, each event tells how many
/// instructions its process ran (its pending ones, up to the quantum) and
/// whether that finished it, as the process stood before the round.
pub proof fn ley_ronda_eventos(s: EstadoRR, turno: Seq<Pid>, q: u32)
    requires
        forall|a: int, b: int| 0 <= a < b < s.procs.len() ==> s.procs[a].pid < s.procs[b].pid,
        hechas_validas(s.procs),
        turno.no_duplicates(),
        forall|k: int| 0 <= k < turno.len() ==> buscar(s.procs, #[trigger] turno[k]) is Some,
    ensures
        ronda(s, turno, q).1.len() == turno.len(),
        forall|k: int|
            0 <= k < turno.len() ==> {
                let p = s.procs[buscar(s.procs, turno[k])->0];
                &&& (#[trigger] ronda(s, turno, q).1[k]).ejecutadas == minimo(p.total - p.hechas, q as int)
                &&& ronda(s, turno, q).1[k].termino == (p.hechas + minimo(p.total - p.hechas, q as int) >= p.total)
            },
    decreases turno.len(),
{
    if turno.len() > 0 {
        let r = turno.drop_last();
        let pid = turno.last();
        assert forall|k: int| 0 <= k < r.len() implies buscar(s.procs, #[trigger] r[k]) is Some by {
            assert(r[k] == turno[k]);
        }
        assert forall|a: int, b: int| 0 <= a < b < r.len() implies r[a] != r[b] by {
            assert(r[a] == turno[a] && r[b] == turno[b]);
        }
        ley_ronda_eventos(s, r, q);
        lema_ronda_cuenta(s, r, q);
        let s1 = ronda(s, r, q).0;
        let ev1 = ronda(s, r, q).1;
        assert(buscar(s.procs, turno[turno.len() - 1]) is Some);
        let i0 = buscar(s.procs, pid)->0;
        assert(!r.contains(pid)) by {
            if r.contains(pid) {
                let j = choose|j: int| 0 <= j < r.len() && r[j] == pid;
                assert(turno[j] == turno[turno.len() - 1]);
            }
        }
        assert forall|a: int, b: int| 0 <= a < b < s1.procs.len() implies s1.procs[a].pid < s1.procs[b].pid by {
            assert(s1.procs[a].pid == s.procs[a].pid && s1.procs[b].pid == s.procs[b].pid);
        }
        lema_buscar_mismos_pids(s.procs, s1.procs, pid);
        assert(s1.procs[i0] == s.procs[i0]);
        let p = s.procs[i0];
        assert(p.hechas <= p.total);
        let ev = ronda(s, turno, q).1;
        assert(ev == ev1.push(turno_de(s1, pid, q).1));
        assert forall|k: int| 0 <= k < turno.len() implies {
            let p = s.procs[buscar(s.procs, turno[k])->0];
            &&& (#[trigger] ev[k]).ejecutadas == minimo(p.total - p.hechas, q as int)
            &&& ev[k].termino == (p.hechas + minimo(p.total - p.hechas, q as int) >= p.total)
        } by {
            if k < r.len() {
                assert(ev[k] == ev1[k]);
                assert(r[k] == turno[k]);
            }
        }
    }
}

/// What must hold while a round goes on: the queue already rebuilt,
/// followed by the processes still to run, is a coherent ready queue.
pub open spec fn parcial(s: EstadoRR, resto: Seq<Pid>, sig: Pid) -> bool {
    &&& pids_ordenados(s.procs, sig)
    &&& marcos_coherentes(s.procs, s.duenos)
    &&& cola_coherente(s.procs, s.listos + resto)
    &&& hechas_validas(s.procs)
    &&& s.duenos.len() == s.ram.len()
    &&& s.duenos.len() <= usize::MAX
}

proof fn lema_cola_turno(sl: Seq<Pid>, resto: Seq<Pid>, sl2: Seq<Pid>, termino: bool)
    requires
        resto.len() > 0,
        sl2 == if termino {
            sl
        } else {
            sl.push(resto[0])
        },
        (sl + resto).no_duplicates(),
    ensures
        (sl2 + resto.drop_first()).no_duplicates(),
        forall|y: Pid| #[trigger] (sl2 + resto.drop_first()).contains(y) <==> ((sl + resto).contains(y) && (y
            != resto[0] || !termino)),
        forall|k: int| 0 <= k < resto.len() - 1 ==> #[trigger] resto.drop_first()[k] != resto[0],
{
    let pid = resto[0];
    let l = sl + resto;
    let r1 = resto.drop_first();
    let l2 = sl2 + r1;
    assert(l[sl.len() as int] == pid);
    assert forall|k: int| 0 <= k < r1.len() implies #[trigger] r1[k] != pid by {
        assert(r1[k] == l[sl.len() + 1 + k]);
    }
    assert forall|k: int| 0 <= k < l2.len() implies #[trigger] l2[k] == l[if k < sl.len() {
        k
    } else if k < sl2.len() {
        sl.len() as int
    } else {
        k - sl2.len() + sl.len() + 1
    }] by {}
    assert forall|y: Pid| #[trigger] l2.contains(y) <==> (l.contains(y) && (y != pid || !termino)) by {
        if l2.contains(y) {
            let k = choose|k: int| 0 <= k < l2.len() && l2[k] == y;
            if k >= sl.len() && k < sl2.len() {
                assert(!termino);
            }
            if termino && k >= sl2.len() {
                assert(r1[k - sl2.len()] == y);
            }
        }
        if l.contains(y) && (y != pid || !termino) {
            let k = choose|k: int| 0 <= k < l.len() && l[k] == y;
            if k < sl.len() {
                assert(l2[k] == y);
            } else if k == sl.len() {
                assert(l2[sl.len() as int] == y);
            } else {
                assert(l2[k - sl.len() - 1 + sl2.len()] == y);
            }
        }
    }
    assert forall|a1: int, b1: int| 0 <= a1 < b1 < l2.len() implies l2[a1] != l2[b1] by {}
}

proof fn lema_marcos_turno(
    ps: Seq<ProcV>,
    ps2: Seq<ProcV>,
    d: Seq<Option<Pid>>,
    d2: Seq<Option<Pid>>,
    i: int,
    termino: bool,
)
    requires
        forall|a: int, b: int| 0 <= a < b < ps.len() ==> ps[a].pid < ps[b].pid,
        marcos_coherentes(ps, d),
        0 <= i < ps.len(),
        ps2.len() == ps.len(),
        forall|j: int| 0 <= j < ps.len() && j != i ==> #[trigger] ps2[j] == ps[j],
        ps2[i].pid == ps[i].pid,
        termino ==> ps2[i].marcos == Seq::<usize>::empty(),
        !termino ==> ps2[i].marcos == ps[i].marcos && ps2[i].estado == ps[i].estado,
        d2 == if termino {
            soltar(d, ps[i].pid)
        } else {
            d
        },
    ensures
        marcos_coherentes(ps2, d2),
        forall|x: Pid| #[trigger] buscar(ps2, x) == buscar(ps, x),
{
    let pid = ps[i].pid;
    assert forall|x: Pid| #[trigger] buscar(ps2, x) == buscar(ps, x) by {
        assert forall|k: int| 0 <= k < ps.len() implies #[trigger] ps2[k].pid == ps[k].pid by {}
        lema_buscar_mismos_pids(ps, ps2, x);
    }
    lema_buscar(ps, pid, i);
    assert forall|j: int| 0 <= j < ps2.len() implies {
        &&& (#[trigger] ps2[j]).marcos.no_duplicates()
        &&& ps2[j].estado == Estado::Terminado ==> ps2[j].marcos.len() == 0
        &&& forall|k: int|
            0 <= k < ps2[j].marcos.len() ==> #[trigger] ps2[j].marcos[k] < d2.len() && d2[ps2[j].marcos[k] as int]
                == Some(ps2[j].pid)
    } by {
        if j != i {
            if termino {
                if ps[j].pid == pid {
                    lema_buscar(ps, pid, j);
                }
                assert forall|k: int| 0 <= k < ps2[j].marcos.len() implies #[trigger] ps2[j].marcos[k] < d2.len()
                    && d2[ps2[j].marcos[k] as int] == Some(ps2[j].pid) by {
                    assert(d[ps[j].marcos[k] as int] == Some(ps[j].pid));
                }
            }
        } else if termino {
            assert(ps2[j].marcos.no_duplicates());
        }
    }
    assert forall|m: int| 0 <= m < d2.len() && #[trigger] d2[m] is Some && buscar(ps2, d2[m]->0) is Some implies ps2[buscar(
        ps2,
        d2[m]->0,
    )->0].estado == Estado::Listo by {
        assert(d2[m] == d[m]);
        let x = d[m]->0;
        let j = buscar(ps, x)->0;
        if termino {
            assert(x != pid);
            assert(j != i);
        }
    }
}

proof fn lema_ram_tras(ram: Seq<u32>, ms: Seq<usize>, h: int, c: int, j: nat)
    requires
        forall|k: int| 0 <= k < ms.len() ==> #[trigger] ms[k] < ram.len(),
        j > 0 ==> ms.len() > 0,
        h >= 0,
    ensures
        ram_tras(ram, ms, h, c, j).len() == ram.len(),
    decreases j,
{
    if j > 0 {
        lema_ram_tras(ram, ms, h, c, (j - 1) as nat);
        let k = (h + j - 1) % (ms.len() as int);
        assert(0 <= k < ms.len());
        assert(ms[k] < ram.len());
    }
}

#[verifier::rlimit(60)]
#[verifier::spinoff_prover]
proof fn lema_turno(s: EstadoRR, resto: Seq<Pid>, q: u32, sig: Pid)
    requires
        parcial(s, resto, sig),
        resto.len() > 0,
        a_ejecutar(s.procs[buscar(s.procs, resto[0])->0], q) > 0 ==> s.procs[buscar(
            s.procs,
            resto[0],
        )->0].marcos.len() > 0,
    ensures
        ({
            let s2 = turno_de(s, resto[0], q).0;
            &&& parcial(s2, resto.drop_first(), sig)
            &&& s2.procs.len() == s.procs.len()
            &&& forall|k: int| 0 <= k < s.procs.len() ==> #[trigger] s2.procs[k].pid == s.procs[k].pid
            &&& forall|x: Pid| #[trigger] buscar(s2.procs, x) == buscar(s.procs, x)
            &&& forall|k: int| 0 <= k < resto.len() - 1 ==> #[trigger] s2.procs[buscar(s.procs, resto.drop_first()[k])->0]
                == s.procs[buscar(s.procs, resto.drop_first()[k])->0]
        }),
{
    let pid = resto[0];
    let l = s.listos + resto;
    let r1 = resto.drop_first();
    assert(l[s.listos.len() as int] == pid);
    assert(vivo(s.procs, pid));
    let i = buscar(s.procs, pid)->0;
    let p = s.procs[i];
    let a = a_ejecutar(p, q);
    let termino = p.hechas + a >= p.total;
    let s2 = turno_de(s, pid, q).0;
    let ps = s.procs;
    let ps2 = s2.procs;
    assert(ps2 == ps.update(i, ps2[i]));
    lema_cola_turno(s.listos, resto, s2.listos, termino);
    assert forall|k: int| 0 <= k < p.marcos.len() implies #[trigger] p.marcos[k] < s.ram.len() by {
        assert(p.marcos[k] < s.duenos.len());
    }
    lema_ram_tras(s.ram, p.marcos, p.hechas as int, s.ciclos, a as nat);
    lema_marcos_turno(ps, ps2, s.duenos, s2.duenos, i, termino);
    let l2 = s2.listos + r1;
    assert forall|k: int| 0 <= k < r1.len() implies #[trigger] ps2[buscar(ps, r1[k])->0] == ps[buscar(
        ps,
        r1[k],
    )->0] by {
        assert(r1[k] == l[s.listos.len() + 1 + k]);
        assert(vivo(ps, r1[k]));
        let j = buscar(ps, r1[k])->0;
        if j == i {
            assert(ps[j].pid == pid);
        }
    }
    assert forall|k: int| 0 <= k < l2.len() implies vivo(ps2, #[trigger] l2[k]) by {
        let y = l2[k];
        assert(l2.contains(y));
        let k0 = choose|k0: int| 0 <= k0 < l.len() && l[k0] == y;
        assert(vivo(ps, l[k0]));
        let j = buscar(ps, y)->0;
        if j == i {
            assert(y == pid);
        }
    }
    assert forall|j: int| 0 <= j < ps2.len() && (#[trigger] ps2[j]).estado == Estado::Listo implies l2.contains(
        ps2[j].pid,
    ) by {
        if j != i {
            assert(l.contains(ps[j].pid));
            if ps[j].pid == pid {
                lema_buscar(ps, pid, j);
            }
        } else {
            assert(l.contains(pid));
        }
    }
    assert forall|j: int| 0 <= j < ps2.len() implies (#[trigger] ps2[j]).hechas <= ps2[j].total by {}
    assert forall|a1: int, b1: int| 0 <= a1 < b1 < ps2.len() implies ps2[a1].pid < ps2[b1].pid by {
        assert(ps2[a1].pid == ps[a1].pid);
        assert(ps2[b1].pid == ps[b1].pid);
    }
    assert forall|j: int| 0 <= j < ps2.len() implies #[trigger] ps2[j].pid < sig by {
        assert(ps2[j].pid == ps[j].pid);
    }
    assert(pids_ordenados(ps2, sig));
    assert(marcos_coherentes(ps2, s2.duenos));
    assert(cola_coherente(ps2, l2));
    assert(hechas_validas(ps2));
    assert(s2.duenos.len() == s2.ram.len());
    assert(parcial(s2, r1, sig));
}

proof fn lema_trabajo_prefijo(procs: Seq<ProcV>, turno: Seq<Pid>, q: u32, k: int)
    requires
        0 <= k <= turno.len(),
        hechas_validas(procs),
        forall|j: int| 0 <= j < turno.len() ==> buscar(procs, #[trigger] turno[j]) is Some,
    ensures
        0 <= trabajo(procs, turno.take(k), q) <= trabajo(procs, turno, q),
    decreases turno.len(),
{
    if k < turno.len() {
        let r = turno.drop_last();
        assert(r.take(k) =~= turno.take(k));
        assert forall|j: int| 0 <= j < r.len() implies buscar(procs, #[trigger] r[j]) is Some by {
            assert(r[j] == turno[j]);
        }
        lema_trabajo_prefijo(procs, r, q, k);
        assert(buscar(procs, turno[turno.len() - 1]) is Some);
        let i = buscar(procs, turno.last())->0;
        assert(procs[i].hechas <= procs[i].total);
    } else {
        assert(turno.take(k) =~= turno);
        if turno.len() > 0 {
            let r = turno.drop_last();
            assert(r.take(r.len() as int) =~= r);
            assert forall|j: int| 0 <= j < r.len() implies buscar(procs, #[trigger] r[j]) is Some by {
                assert(r[j] == turno[j]);
            }
            lema_trabajo_prefijo(procs, r, q, r.len() as int);
            assert(buscar(procs, turno[turno.len() - 1]) is Some);
            let i = buscar(procs, turno.last())->0;
            assert(procs[i].hechas <= procs[i].total);
        }
    }
}

impl GestorProcesos {
    /// Process control blocks, in increasing pid order.
    pub closed spec fn procesos(&self) -> Seq<ProcV> {
        self.pcbs@.map_values(|p: Pcb| p.v())
    }

    /// Ready queue, front first.
    pub closed spec fn listos(&self) -> Seq<Pid> {
        self.listos@
    }

    /// Pid that the next process will get.
    pub closed spec fn sig_pid(&self) -> Pid {
        self.sig_pid
    }

    pub closed spec fn quantum(&self) -> u32 {
        self.quantum
    }

    pub closed spec fn duenos(&self) -> Seq<Option<Pid>> {
        self.mem.duenos()
    }

    pub closed spec fn ram(&self) -> Seq<u32> {
        self.mem.ram()
    }

    pub closed spec fn disco(&self) -> Seq<String> {
        self.mem.disco()
    }

    pub closed spec fn ciclos(&self) -> u64 {
        self.mem.ciclos()
    }

    pub closed spec fn wf(&self) -> bool {
        &&& self.mem.wf()
        &&& self.duenos().len() == self.ram().len()
        &&& pids_ordenados(self.procesos(), self.sig_pid)
        &&& marcos_coherentes(self.procesos(), self.duenos())
        &&& cola_coherente(self.procesos(), self.listos@)
        &&& hechas_validas(self.procesos())
    }

    /// A well-formed layer is in a valid state.
    pub proof fn lema_valida(&self)
        requires
            self.wf(),
        ensures
            valida(self.vista()),
    {
        self.mem.lema_tamanos();
    }

    pub fn nuevo(mem: GestorMemoria, quantum: u32) -> (g: Self)
        requires
            mem.wf(),
        ensures
            g.wf(),
            g.procesos() == Seq::<ProcV>::empty(),
            g.listos() == Seq::<Pid>::empty(),
            g.sig_pid() == 1,
            g.quantum() == quantum,
            g.duenos() == mem.duenos(),
            g.ram() == mem.ram(),
            g.disco() == mem.disco(),
            g.ciclos() == mem.ciclos(),
    {
        proof {
            mem.lema_tamanos();
        }
        let g = GestorProcesos { mem, pcbs: Vec::new(), listos: Vec::new(), sig_pid: 1, quantum };
        proof {
            assert(g.procesos() =~= Seq::<ProcV>::empty());
        }
        g
    }

    /// Creates a process: asks the layer below for memory and builds its
    /// control block.
    pub fn crear(&mut self, nombre: &str, paginas: usize, instrucciones: u32, t: &mut Traza) -> (r:
        Result<Pid, ErrorProcesos>)
        requires
            old(self).wf(),
            paginas <= libres(old(self).duenos()).len() ==> old(self).sig_pid() < u32::MAX,
        ensures
            final(self).wf(),
            r is Ok <==> paginas <= libres(old(self).duenos()).len(),
            final(self).quantum() == old(self).quantum(),
            final(self).disco() == old(self).disco(),
            final(self).ciclos() == old(self).ciclos(),
            match r {
                Ok(pid) => {
                    let a = libres(old(self).duenos()).take(paginas as int);
                    &&& pid == old(self).sig_pid()
                    &&& final(self).sig_pid() == old(self).sig_pid() + 1
                    &&& final(self).procesos() == old(self).procesos().push(
                        ProcV {
                            pid,
                            nombre: nombre@,
                            estado: Estado::Listo,
                            marcos: a,
                            hechas: 0,
                            total: instrucciones,
                        },
                    )
                    &&& final(self).listos() == old(self).listos().push(pid)
                    &&& final(self).duenos() == asignar(old(self).duenos(), a, pid)
                    &&& final(self).ram() == limpiar(old(self).ram(), a)
                    &&& final(t)@ == old(t)@.anotar(
                        seq![bajada(2, Op::Reservar { pid, paginas })] + pasos_reserva(a) + seq![
                            subida(2, Op::PcbCreado { pid }),
                        ],
                    )
                },
                Err(e) => {
                    let em = ErrorMemoria::SinMarcos {
                        pedidos: paginas,
                        libres: libres(old(self).duenos()).len() as usize,
                    };
                    &&& e == ErrorProcesos::SinMemoria(em)
                    &&& final(self).procesos() == old(self).procesos()
                    &&& final(self).listos() == old(self).listos()
                    &&& final(self).sig_pid() == old(self).sig_pid()
                    &&& final(self).duenos() == old(self).duenos()
                    &&& final(self).ram() == old(self).ram()
                    &&& final(t)@ == old(t)@.anotar(
                        seq![
                            bajada(2, Op::Reservar { pid: old(self).sig_pid(), paginas }),
                            subida(1, Op::FalloMemoria(em)),
                            subida(2, Op::FalloProcesos(e)),
                        ],
                    )
                },
            },
    {
        let ghost t0 = t@;
        let ghost s0 = self.procesos();
        let ghost d0 = self.duenos();
        proof {
            self.mem.lema_tamanos();
        }
        let pid = self.sig_pid;
        bajar(t, 2, Op::Reservar { pid, paginas });
        let ghost t1 = t@;
        match self.mem.reservar(pid, paginas, t) {
            Ok(marcos) => {
                let ghost a = marcos@;
                let ghost t2 = t@;
                self.sig_pid = self.sig_pid + 1;
                let pcb = Pcb {
                    pid,
                    nombre: nombre.to_owned(),
                    estado: Estado::Listo,
                    marcos,
                    hechas: 0,
                    total: instrucciones,
                };
                let ghost pv = pcb.v();
                self.pcbs.push(pcb);
                self.listos.push(pid);
                subir(t, 2, Op::PcbCreado { pid });
                proof {
                    let s1 = self.procesos();
                    let d1 = self.duenos();
                    assert(s1 =~= s0.push(pv));
                    lema_anotar_concat(t0, seq![bajada(2, Op::Reservar { pid, paginas })], pasos_reserva(a));
                    lema_anotar_concat(
                        t0,
                        seq![bajada(2, Op::Reservar { pid, paginas })] + pasos_reserva(a),
                        seq![subida(2, Op::PcbCreado { pid })],
                    );
                    self.lema_tras_crear(s0, d0, old(self).listos@, a, pv);
                }
                Ok(pid)
            },
            Err(e) => {
                let err = ErrorProcesos::SinMemoria(e);
                subir(t, 2, Op::FalloProcesos(err));
                proof {
                    lema_anotar_concat(t0, seq![bajada(2, Op::Reservar { pid, paginas })], seq![subida(1, Op::FalloMemoria(e))]);
                    lema_anotar_concat(
                        t0,
                        seq![bajada(2, Op::Reservar { pid, paginas })] + seq![subida(1, Op::FalloMemoria(e))],
                        seq![subida(2, Op::FalloProcesos(err))],
                    );
                    assert(seq![bajada(2, Op::Reservar { pid, paginas })] + seq![subida(1, Op::FalloMemoria(e))]
                        + seq![subida(2, Op::FalloProcesos(err))] =~= seq![
                            bajada(2, Op::Reservar { pid, paginas }),
                            subida(1, Op::FalloMemoria(e)),
                            subida(2, Op::FalloProcesos(err)),
                        ]);
                }
                Err(err)
            },
        }
    }

    proof fn lema_tras_crear(
        &self,
        s0: Seq<ProcV>,
        d0: Seq<Option<Pid>>,
        l0: Seq<Pid>,
        a: Seq<usize>,
        pv: ProcV,
    )
        requires
            self.mem.wf(),
            d0.len() <= usize::MAX,
            pids_ordenados(s0, pv.pid),
            marcos_coherentes(s0, d0),
            cola_coherente(s0, l0),
            hechas_validas(s0),
            a == libres(d0).take(a.len() as int),
            a.len() <= libres(d0).len(),
            pv.marcos == a,
            pv.estado == Estado::Listo,
            pv.hechas == 0,
            self.procesos() == s0.push(pv),
            self.listos@ == l0.push(pv.pid),
            self.duenos() == asignar(d0, a, pv.pid),
            self.duenos().len() == self.ram().len(),
            self.sig_pid == pv.pid + 1,
        ensures
            self.wf(),
    {
        let s1 = self.procesos();
        let d1 = self.duenos();
        let pid = pv.pid;
        lema_libres(d0);
        // frames given to the new process were free
        assert forall|k: int| 0 <= k < a.len() implies #[trigger] a[k] < d0.len() && d0[a[k] as int] is None by {
            assert(a[k] == libres(d0)[k]);
        }
        assert forall|k: int, j: int| 0 <= k < a.len() && 0 <= j < a.len() && k != j implies a[k] != a[j] by {
            if k < j {
                assert(libres(d0)[k] < libres(d0)[j]);
            } else {
                assert(libres(d0)[j] < libres(d0)[k]);
            }
        }
        assert(a.no_duplicates());
        assert forall|x: Pid| x != pid implies #[trigger] buscar(s1, x) == buscar(s0, x) by {
            lema_buscar_push(s0, pv, x);
        }
        lema_buscar_push(s0, pv, pid);
        // the processes that were there keep their frames
        assert forall|i: int| 0 <= i < s1.len() implies {
            &&& (#[trigger] s1[i]).marcos.no_duplicates()
            &&& s1[i].estado == Estado::Terminado ==> s1[i].marcos.len() == 0
            &&& forall|k: int|
                0 <= k < s1[i].marcos.len() ==> #[trigger] s1[i].marcos[k] < d1.len() && d1[s1[i].marcos[k] as int]
                    == Some(s1[i].pid)
        } by {
            if i < s0.len() {
                assert(s1[i] == s0[i]);
                assert forall|k: int| 0 <= k < s1[i].marcos.len() implies #[trigger] s1[i].marcos[k] < d1.len()
                    && d1[s1[i].marcos[k] as int] == Some(s1[i].pid) by {
                    let m = s0[i].marcos[k];
                    assert(d0[m as int] == Some(s0[i].pid));
                    if a.contains(m) {
                        let j = choose|j: int| 0 <= j < a.len() && a[j] == m;
                        assert(d0[a[j] as int] is None);
                    }
                }
            } else {
                assert(s1[i] == pv);
                assert forall|k: int| 0 <= k < a.len() implies #[trigger] a[k] < d1.len() && d1[a[k] as int] == Some(
                    pid,
                ) by {
                    assert(a.contains(a[k]));
                }
            }
        }
        assert forall|m: int| 0 <= m < d1.len() && #[trigger] d1[m] is Some && buscar(s1, d1[m]->0) is Some implies s1[buscar(
            s1,
            d1[m]->0,
        )->0].estado == Estado::Listo by {
            let x = d1[m]->0;
            if x == pid {
                assert(s1[s0.len() as int] == pv);
            } else {
                assert(!a.contains(m as usize));
                assert(d1[m] == d0[m]);
                let i = buscar(s0, x)->0;
                assert(s1[i] == s0[i]);
            }
        }
        // the queue
        assert forall|k: int| 0 <= k < l0.len() implies #[trigger] l0[k] != pid by {
            let i = buscar(s0, l0[k])->0;
            assert(vivo(s0, l0[k]));
            assert(s0[i].pid < pid);
        }
        assert(self.listos@.no_duplicates()) by {
            assert forall|k: int, j: int| 0 <= k < self.listos@.len() && 0 <= j < self.listos@.len() && k != j
                implies self.listos@[k] != self.listos@[j] by {
                if k < l0.len() && j < l0.len() {
                    assert(self.listos@[k] == l0[k]);
                    assert(self.listos@[j] == l0[j]);
                } else if k < l0.len() {
                    assert(self.listos@[k] == l0[k]);
                } else if j < l0.len() {
                    assert(self.listos@[j] == l0[j]);
                }
            }
        }
        assert forall|k: int| 0 <= k < self.listos@.len() implies vivo(s1, #[trigger] self.listos@[k]) by {
            if k < l0.len() {
                assert(self.listos@[k] == l0[k]);
                let i = buscar(s0, l0[k])->0;
                assert(s1[i] == s0[i]);
            }
        }
        assert forall|i: int| 0 <= i < s1.len() && (#[trigger] s1[i]).estado == Estado::Listo implies self.listos@.contains(
            s1[i].pid,
        ) by {
            if i < s0.len() {
                assert(s1[i] == s0[i]);
                let k = choose|k: int| 0 <= k < l0.len() && l0[k] == s0[i].pid;
                assert(self.listos@[k] == l0[k]);
            } else {
                assert(self.listos@[l0.len() as int] == pid);
            }
        }
        assert forall|i: int| 0 <= i < s1.len() implies (#[trigger] s1[i]).hechas <= s1[i].total by {
            if i < s0.len() {
                assert(s1[i] == s0[i]);
            }
        }
        assert forall|i: int, j: int| 0 <= i < j < s1.len() implies s1[i].pid < s1[j].pid by {
            if j < s0.len() {
                assert(s1[i] == s0[i]);
                assert(s1[j] == s0[j]);
            } else {
                assert(s1[i] == s0[i]);
            }
        }
        assert forall|i: int| 0 <= i < s1.len() implies #[trigger] s1[i].pid < self.sig_pid by {
            if i < s0.len() {
                assert(s1[i] == s0[i]);
            }
        }
    }

    /// Reads a disk block into the memory of the process.
    pub fn leer_bloque(&mut self, pid: Pid, bloque: usize, t: &mut Traza) -> (r: Result<
        String,
        ErrorProcesos,
    >)
        requires
            old(self).wf(),
            vivo(old(self).procesos(), pid) ==> old(self).procesos()[buscar(
                old(self).procesos(),
                pid,
            )->0].marcos.len() > 0,
        ensures
            final(self).wf(),
            final(self).procesos() == old(self).procesos(),
            final(self).listos() == old(self).listos(),
            final(self).sig_pid() == old(self).sig_pid(),
            final(self).quantum() == old(self).quantum(),
            final(self).duenos() == old(self).duenos(),
            final(self).disco() == old(self).disco(),
            final(self).ciclos() == old(self).ciclos(),
            !vivo(old(self).procesos(), pid) ==> {
                &&& r == Err::<String, ErrorProcesos>(ErrorProcesos::PidInexistente(pid))
                &&& final(self).ram() == old(self).ram()
                &&& final(t)@ == old(t)@.anotar(
                    seq![subida(2, Op::FalloProcesos(ErrorProcesos::PidInexistente(pid)))],
                )
            },
            vivo(old(self).procesos(), pid) ==> {
                let marco = old(self).procesos()[buscar(old(self).procesos(), pid)->0].marcos[0];
                let d = old(self).disco();
                if bloque < d.len() {
                    &&& r == Ok::<String, ErrorProcesos>(d[bloque as int])
                    &&& final(self).ram() == old(self).ram().update(
                        marco as int,
                        crate::capa1_memoria::largo_bytes(d[bloque as int]@) as usize as u32,
                    )
                    &&& final(t)@ == old(t)@.anotar(
                        seq![bajada(2, Op::CargarBloque { bloque, marco })] + pasos_carga(
                            bloque,
                            marco,
                            Some(d[bloque as int]),
                        ) + seq![subida(2, Op::DatosLeidos)],
                    )
                } else {
                    let e = ErrorProcesos::Disco(ErrorMemoria::BloqueInexistente(bloque));
                    &&& r == Err::<String, ErrorProcesos>(e)
                    &&& final(self).ram() == old(self).ram()
                    &&& final(t)@ == old(t)@.anotar(
                        seq![bajada(2, Op::CargarBloque { bloque, marco })] + pasos_carga(
                            bloque,
                            marco,
                            None,
                        ) + seq![subida(2, Op::FalloProcesos(e))],
                    )
                }
            },
    {
        let ghost t0 = t@;
        let idx = self.indice(pid);
        let i = match idx {
            Some(i) => i,
            None => 0,
        };
        if idx.is_none() || !matches!(self.pcbs[i].estado, Estado::Listo) {
            let e = ErrorProcesos::PidInexistente(pid);
            subir(t, 2, Op::FalloProcesos(e));
            return Err(e);
        }
        let marco = self.pcbs[i].marcos[0];
        proof {
            let i = buscar(self.procesos(), pid)->0;
            assert(self.procesos()[i].marcos[0] == marco);
            assert(marco < self.duenos().len());
        }
        bajar(t, 2, Op::CargarBloque { bloque, marco });
        let ghost t1 = t@;
        let r = self.mem.cargar_bloque(bloque, marco, t);
        let ghost t2 = t@;
        match r {
            Ok(d) => {
                subir(t, 2, Op::DatosLeidos);
                proof {
                    lema_anotar_concat(t0, seq![bajada(2, Op::CargarBloque { bloque, marco })], pasos_carga(bloque, marco, Some(d)));
                    lema_anotar_concat(t0, seq![bajada(2, Op::CargarBloque { bloque, marco })] + pasos_carga(bloque, marco, Some(d)), seq![subida(2, Op::DatosLeidos)]);
                }
                Ok(d)
            },
            Err(e) => {
                let err = ErrorProcesos::Disco(e);
                subir(t, 2, Op::FalloProcesos(err));
                proof {
                    lema_anotar_concat(t0, seq![bajada(2, Op::CargarBloque { bloque, marco })], pasos_carga(bloque, marco, None));
                    lema_anotar_concat(t0, seq![bajada(2, Op::CargarBloque { bloque, marco })] + pasos_carga(bloque, marco, None), seq![subida(2, Op::FalloProcesos(err))]);
                }
                Err(err)
            },
        }
    }

    /// Ends a process before its time and frees its memory.
    pub fn terminar(&mut self, pid: Pid, t: &mut Traza) -> (r: Result<usize, ErrorProcesos>)
        requires
            old(self).wf(),
        ensures
            final(self).wf(),
            r is Ok <==> vivo(old(self).procesos(), pid),
            final(self).sig_pid() == old(self).sig_pid(),
            final(self).quantum() == old(self).quantum(),
            final(self).ram() == old(self).ram(),
            final(self).disco() == old(self).disco(),
            final(self).ciclos() == old(self).ciclos(),
            match r {
                Ok(n) => {
                    let i = buscar(old(self).procesos(), pid)->0;
                    let p = old(self).procesos()[i];
                    &&& n == cuenta_de(old(self).duenos(), pid)
                    &&& final(self).procesos() == old(self).procesos().update(
                        i,
                        ProcV { estado: Estado::Terminado, marcos: Seq::empty(), ..p },
                    )
                    &&& final(self).listos() == sin(old(self).listos(), pid)
                    &&& final(self).duenos() == soltar(old(self).duenos(), pid)
                    &&& final(t)@ == old(t)@.anotar(
                        seq![
                            bajada(2, Op::Liberar { pid }),
                            subida(1, Op::MarcosLibresDeNuevo { n }),
                            subida(2, Op::MarcosLiberados { n }),
                        ],
                    )
                },
                Err(e) => {
                    &&& e == ErrorProcesos::PidInexistente(pid)
                    &&& final(self).procesos() == old(self).procesos()
                    &&& final(self).listos() == old(self).listos()
                    &&& final(self).duenos() == old(self).duenos()
                    &&& final(t)@ == old(t)@
                },
            },
    {
        let ghost t0 = t@;
        let ghost s0 = self.procesos();
        let ghost d0 = self.duenos();
        let ghost l0 = self.listos@;
        let idx = self.indice(pid);
        let i = match idx {
            Some(i) => i,
            None => 0,
        };
        if idx.is_none() || !matches!(self.pcbs[i].estado, Estado::Listo) {
            return Err(ErrorProcesos::PidInexistente(pid));
        }
        let ghost p0 = s0[i as int];
        self.pcbs[i].estado = Estado::Terminado;
        self.pcbs[i].marcos.clear();
        let mut nueva: Vec<Pid> = Vec::new();
        let mut k: usize = 0;
        while k < self.listos.len()
            invariant
                k <= self.listos@.len(),
                self.listos@ == l0,
                nueva@ == sin(l0.take(k as int), pid),
            decreases self.listos@.len() - k,
        {
            proof {
                assert(l0.take(k as int + 1).drop_last() =~= l0.take(k as int));
                assert(l0.take(k as int + 1).last() == l0[k as int]);
            }
            if self.listos[k] != pid {
                nueva.push(self.listos[k]);
            }
            k = k + 1;
        }
        proof {
            assert(l0.take(k as int) =~= l0);
        }
        self.listos = nueva;
        bajar(t, 2, Op::Liberar { pid });
        let n = self.mem.liberar(pid, t);
        subir(t, 2, Op::MarcosLiberados { n });
        proof {
            let s1 = self.procesos();
            let d1 = self.duenos();
            assert(s1 =~= s0.update(i as int, ProcV { estado: Estado::Terminado, marcos: Seq::empty(), ..p0 }));
            lema_anotar_concat(t0, seq![bajada(2, Op::Liberar { pid })], seq![subida(1, Op::MarcosLibresDeNuevo { n })]);
            lema_anotar_concat(t0, seq![bajada(2, Op::Liberar { pid })] + seq![subida(1, Op::MarcosLibresDeNuevo { n })], seq![subida(2, Op::MarcosLiberados { n })]);
            assert(seq![bajada(2, Op::Liberar { pid })] + seq![subida(1, Op::MarcosLibresDeNuevo { n })] + seq![subida(2, Op::MarcosLiberados { n })]
                =~= seq![bajada(2, Op::Liberar { pid }), subida(1, Op::MarcosLibresDeNuevo { n }), subida(2, Op::MarcosLiberados { n })]);
            assert forall|x: Pid| #[trigger] buscar(s1, x) == buscar(s0, x) by {
                lema_buscar_mismos_pids(s0, s1, x);
            }
            lema_sin(l0, pid);
            // frames
            assert forall|j: int| 0 <= j < s1.len() implies {
                &&& (#[trigger] s1[j]).marcos.no_duplicates()
                &&& s1[j].estado == Estado::Terminado ==> s1[j].marcos.len() == 0
                &&& forall|q: int|
                    0 <= q < s1[j].marcos.len() ==> #[trigger] s1[j].marcos[q] < d1.len() && d1[s1[j].marcos[q] as int]
                        == Some(s1[j].pid)
            } by {
                if j != i {
                    assert(s1[j] == s0[j]);
                    if s0[j].pid == pid {
                        lema_buscar(s0, pid, j);
                    }
                    assert forall|q: int| 0 <= q < s1[j].marcos.len() implies #[trigger] s1[j].marcos[q] < d1.len()
                        && d1[s1[j].marcos[q] as int] == Some(s1[j].pid) by {
                        assert(d0[s0[j].marcos[q] as int] == Some(s0[j].pid));
                    }
                } else {
                    assert(s1[j].marcos =~= Seq::<usize>::empty());
                }
            }
            assert forall|m: int| 0 <= m < d1.len() && #[trigger] d1[m] is Some && buscar(s1, d1[m]->0) is Some implies s1[buscar(
                s1,
                d1[m]->0,
            )->0].estado == Estado::Listo by {
                assert(d1[m] == d0[m]);
                let x = d0[m]->0;
                assert(x != pid);
                assert(buscar(s1, x) == buscar(s0, x));
                let j = buscar(s0, x)->0;
                lema_buscar(s0, pid, i as int);
                assert(j != i);
                assert(s1[j] == s0[j]);
            }
            assert forall|q: int| 0 <= q < self.listos@.len() implies vivo(s1, #[trigger] self.listos@[q]) by {
                let y = self.listos@[q];
                assert(sin(l0, pid).contains(y));
                let q0 = choose|q0: int| 0 <= q0 < l0.len() && l0[q0] == y;
                assert(vivo(s0, l0[q0]));
                let j = buscar(s0, y)->0;
                lema_buscar(s0, pid, i as int);
                assert(j != i);
                assert(s1[j] == s0[j]);
            }
            assert forall|j: int| 0 <= j < s1.len() && (#[trigger] s1[j]).estado == Estado::Listo implies self.listos@.contains(
                s1[j].pid,
            ) by {
                assert(j != i);
                assert(s1[j] == s0[j]);
                if s0[j].pid == pid {
                    lema_buscar(s0, pid, j);
                }
                assert(l0.contains(s0[j].pid));
                assert(sin(l0, pid).contains(s0[j].pid));
            }
            assert forall|j: int| 0 <= j < s1.len() implies (#[trigger] s1[j]).hechas <= s1[j].total by {
                if j != i {
                    assert(s1[j] == s0[j]);
                }
            }
        }
        Ok(n)
    }

    /// A read-only copy of every control block, in pid order.
    pub fn listar(&self, t: &mut Traza) -> (r: Vec<InfoProceso>)
        ensures
            r@.len() == self.procesos().len(),
            r@.map_values(|x: InfoProceso| x@) == self.procesos().map_values(|p: ProcV| info_de(p)),
            final(t)@ == old(t)@.anotar(seq![subida(2, Op::CopiaPcbs { n: self.procesos().len() as usize })]),
    {
        subir(t, 2, Op::CopiaPcbs { n: self.pcbs.len() });
        let mut r: Vec<InfoProceso> = Vec::new();
        let mut i: usize = 0;
        while i < self.pcbs.len()
            invariant
                i <= self.pcbs@.len(),
                r@.len() == i,
                r@.map_values(|x: InfoProceso| x@) == self.procesos().map_values(|p: ProcV| info_de(p)).take(i as int),
            decreases self.pcbs@.len() - i,
        {
            let p = &self.pcbs[i];
            let info = InfoProceso {
                pid: p.pid,
                nombre: p.nombre.clone(),
                estado: p.estado,
                paginas: p.marcos.len(),
                hechas: p.hechas,
                total: p.total,
            };
            proof {
                assert(self.procesos()[i as int] == self.pcbs@[i as int].v());
                assert(info@ == info_de(self.procesos()[i as int]));
            }
            let ghost r0 = r@;
            r.push(info);
            i = i + 1;
            proof {
                let f = |x: InfoProceso| x@;
                let g = self.procesos().map_values(|p: ProcV| info_de(p));
                assert(r@ == r0.push(info));
                assert forall|j: int| 0 <= j < i implies #[trigger] r@.map_values(f)[j] == g.take(i as int)[j] by {
                    if j < i - 1 {
                        assert(r@[j] == r0[j]);
                        assert(r0.map_values(f)[j] == g.take(i - 1)[j]);
                    }
                }
                assert(r@.map_values(f) =~= g.take(i as int));
            }
        }
        proof {
            assert(self.procesos().map_values(|p: ProcV| info_de(p)).take(i as int) =~= self.procesos().map_values(|p: ProcV| info_de(p)));
        }
        r
    }

    /// (used frames, total frames, frame map)
    pub fn uso_memoria(&mut self, t: &mut Traza) -> (r: (usize, usize, Vec<Option<Pid>>))
        requires
            old(self).wf(),
        ensures
            *final(self) == *old(self),
            r.0 == cuenta_usados(old(self).duenos()),
            r.1 == old(self).duenos().len(),
            r.2@ == old(self).duenos(),
            final(t)@ == old(t)@.anotar(
                seq![bajada(2, Op::PedirUso), subida(1, Op::UsoMarcos { usados: r.0, total: r.1 })],
            ),
    {
        let ghost t0 = t@;
        bajar(t, 2, Op::PedirUso);
        let (u, tot) = self.mem.uso(t);
        proof {
            lema_anotar_concat(t0, seq![bajada(2, Op::PedirUso)], seq![subida(1, Op::UsoMarcos { usados: u, total: tot })]);
            assert(seq![bajada(2, Op::PedirUso)] + seq![subida(1, Op::UsoMarcos { usados: u, total: tot })]
                =~= seq![bajada(2, Op::PedirUso), subida(1, Op::UsoMarcos { usados: u, total: tot })]);
        }
        (u, tot, self.mem.mapa())
    }

    pub fn reloj(&mut self, t: &mut Traza) -> (c: u64)
        requires
            old(self).wf(),
        ensures
            *final(self) == *old(self),
            c == old(self).ciclos(),
            final(t)@ == old(t)@.anotar(seq![bajada(2, Op::Reloj), bajada(1, Op::Reloj)]),
    {
        let ghost t0 = t@;
        bajar(t, 2, Op::Reloj);
        let c = self.mem.reloj(t);
        proof {
            lema_anotar_concat(t0, seq![bajada(2, Op::Reloj)], seq![bajada(1, Op::Reloj)]);
            assert(seq![bajada(2, Op::Reloj)] + seq![bajada(1, Op::Reloj)] =~= seq![bajada(2, Op::Reloj), bajada(1, Op::Reloj)]);
        }
        c
    }

    /// Mathematical value of the whole layer.
    pub open spec fn vista(&self) -> VistaProcesos {
        VistaProcesos {
            procs: self.procesos(),
            listos: self.listos(),
            sig_pid: self.sig_pid(),
            quantum: self.quantum(),
            duenos: self.duenos(),
            ram: self.ram(),
            disco: self.disco(),
            ciclos: self.ciclos(),
        }
    }

    /// The state that a round of Round Robin works on, with the trace `t`.
    pub open spec fn estado_rr(&self, t: VistaTraza) -> EstadoRR {
        EstadoRR {
            procs: self.procesos(),
            listos: self.listos(),
            duenos: self.duenos(),
            ram: self.ram(),
            ciclos: self.ciclos() as int,
            traza: t,
        }
    }

    /// Gives the CPU for one quantum to the process at position `i`.
    #[verifier::rlimit(60)]
    #[verifier::spinoff_prover]
    fn dar_cpu(&mut self, i: usize, t: &mut Traza) -> (e: EventoCpu)
        requires
            old(self).mem.wf(),
            old(self).duenos().len() == old(self).ram().len(),
            pids_ordenados(old(self).procesos(), old(self).sig_pid),
            hechas_validas(old(self).procesos()),
            i < old(self).procesos().len(),
            forall|k: int|
                0 <= k < old(self).procesos()[i as int].marcos.len() ==> #[trigger] old(
                    self,
                ).procesos()[i as int].marcos[k] < old(self).ram().len(),
            a_ejecutar(old(self).procesos()[i as int], old(self).quantum) > 0 ==> old(
                self,
            ).procesos()[i as int].marcos.len() > 0,
            old(self).ciclos() + a_ejecutar(old(self).procesos()[i as int], old(self).quantum)
                <= u64::MAX,
        ensures
            final(self).mem.wf(),
            final(self).sig_pid == old(self).sig_pid,
            final(self).quantum == old(self).quantum,
            final(self).disco() == old(self).disco(),
            ({
                let (s2, ev) = turno_de(
                    old(self).estado_rr(old(t)@),
                    old(self).procesos()[i as int].pid,
                    old(self).quantum,
                );
                &&& final(self).estado_rr(final(t)@) == s2
                &&& e@ == ev
            }),
    {
        let ghost s0 = self.estado_rr(t@);
        let ghost t0 = t@;
        let ghost p0 = self.procesos()[i as int];
        let ghost ram0 = self.ram();
        let ghost c0 = self.ciclos() as int;
        let ghost pcbs0 = self.pcbs@;
        let pid = self.pcbs[i].pid;
        proof {
            lema_buscar(self.procesos(), pid, i as int);
        }
        let pendientes = self.pcbs[i].total - self.pcbs[i].hechas;
        let a = if pendientes <= self.quantum {
            pendientes
        } else {
            self.quantum
        };
        let mut j: u32 = 0;
        proof {
            lema_anotar_nada(t0);
        }
        while j < a
            invariant
                j <= a,
                a as int == a_ejecutar(p0, self.quantum),
                i < self.pcbs@.len(),
                self.pcbs@.len() == pcbs0.len(),
                forall|k: int| 0 <= k < pcbs0.len() && k != i ==> #[trigger] self.pcbs@[k] == pcbs0[k],
                self.pcbs@[i as int].v() == (ProcV { hechas: (p0.hechas + j) as u32, ..p0 }),
                p0 == pcbs0[i as int].v(),
                p0.hechas + a <= p0.total,
                a > 0 ==> p0.marcos.len() > 0,
                forall|k: int| 0 <= k < p0.marcos.len() ==> #[trigger] p0.marcos[k] < ram0.len(),
                c0 + a <= u64::MAX,
                self.mem.wf(),
                self.listos@ == s0.listos,
                self.sig_pid == old(self).sig_pid,
                self.quantum == old(self).quantum,
                self.duenos() == s0.duenos,
                self.disco() == old(self).disco(),
                self.ram() == ram_tras(ram0, p0.marcos, p0.hechas as int, c0, j as nat),
                self.ram().len() == ram0.len(),
                self.ciclos() == c0 + j,
                t@ == t0.anotar(pasos_instr(p0.marcos, p0.hechas as int, c0, j as nat)),
            decreases a - j,
        {
            let ghost tj = t@;
            bajar(t, 2, Op::CicloCpu);
            let c = self.mem.ciclo_cpu(t);
            let hechas = self.pcbs[i].hechas;
            let l = self.pcbs[i].marcos.len();
            let marco = self.pcbs[i].marcos[(hechas as usize) % l];
            proof {
                assert(marco == marco_de(p0.marcos, p0.hechas as int, j as int));
                assert(marco < ram0.len());
            }
            bajar(t, 2, Op::Escribir { marco, valor: c });
            self.mem.escribir(marco, c as u32, t);
            self.pcbs[i].hechas = hechas + 1;
            proof {
                let m = marco_de(p0.marcos, p0.hechas as int, j as int);
                let nuevos = seq![
                    bajada(2, Op::CicloCpu),
                    bajada(1, Op::Tick),
                    bajada(2, Op::Escribir { marco: m, valor: (c0 + j + 1) as u64 }),
                    bajada(1, Op::EscribirRam { marco: m, valor: (c0 + j + 1) as u32 as u64 }),
                ];
                lema_anotar_concat(tj, seq![bajada(2, Op::CicloCpu)], seq![bajada(1, Op::Tick)]);
                lema_anotar_concat(tj, seq![bajada(2, Op::CicloCpu)] + seq![bajada(1, Op::Tick)], seq![bajada(2, Op::Escribir { marco: m, valor: c })]);
                lema_anotar_concat(tj, seq![bajada(2, Op::CicloCpu)] + seq![bajada(1, Op::Tick)] + seq![bajada(2, Op::Escribir { marco: m, valor: c })], seq![bajada(1, Op::EscribirRam { marco: m, valor: c as u32 as u64 })]);
                assert(seq![bajada(2, Op::CicloCpu)] + seq![bajada(1, Op::Tick)] + seq![bajada(2, Op::Escribir { marco: m, valor: c })] + seq![bajada(1, Op::EscribirRam { marco: m, valor: c as u32 as u64 })] =~= nuevos);
                lema_anotar_concat(t0, pasos_instr(p0.marcos, p0.hechas as int, c0, j as nat), nuevos);
                assert(self.pcbs@[i as int].v() =~= (ProcV { hechas: (p0.hechas + j + 1) as u32, ..p0 }));
            }
            j = j + 1;
        }
        let termino = self.pcbs[i].hechas >= self.pcbs[i].total;
        let ghost t1 = t@;
        let mut liberados: usize = 0;
        if termino {
            self.pcbs[i].estado = Estado::Terminado;
            self.pcbs[i].marcos.clear();
            bajar(t, 2, Op::Liberar { pid });
            liberados = self.mem.liberar(pid, t);
            proof {
                lema_anotar_concat(t1, seq![bajada(2, Op::Liberar { pid })], seq![subida(1, Op::MarcosLibresDeNuevo { n: liberados })]);
                lema_anotar_concat(t0, pasos_instr(p0.marcos, p0.hechas as int, c0, a as nat), seq![bajada(2, Op::Liberar { pid })] + seq![subida(1, Op::MarcosLibresDeNuevo { n: liberados })]);
                assert(seq![bajada(2, Op::Liberar { pid })] + seq![subida(1, Op::MarcosLibresDeNuevo { n: liberados })] =~= seq![bajada(2, Op::Liberar { pid }), subida(1, Op::MarcosLibresDeNuevo { n: liberados })]);
            }
        } else {
            self.listos.push(pid);
            proof {
                assert(pasos_instr(p0.marcos, p0.hechas as int, c0, a as nat) + Seq::<PasoV>::empty() =~= pasos_instr(p0.marcos, p0.hechas as int, c0, a as nat));
            }
        }
        let nombre = self.pcbs[i].nombre.clone();
        let e = EventoCpu { pid, nombre, ejecutadas: a, termino, marcos_liberados: liberados };
        proof {
            let (s2, ev) = turno_de(s0, pid, self.quantum);
            assert(self.procesos() =~= s2.procs);
            assert(self.listos@ =~= s2.listos);
        }
        e
    }

    /// One full round of Round Robin over the ready queue.
    #[verifier::rlimit(60)]
    #[verifier::spinoff_prover]
    pub fn ejecutar_ronda(&mut self, t: &mut Traza) -> (r: Vec<EventoCpu>)
        requires
            old(self).wf(),
            old(self).ciclos() + trabajo(old(self).procesos(), old(self).listos(), old(self).quantum())
                <= u64::MAX,
            forall|k: int|
                0 <= k < old(self).listos().len() ==> {
                    let p = old(self).procesos()[buscar(old(self).procesos(), #[trigger] old(self).listos()[k])->0];
                    a_ejecutar(p, old(self).quantum()) > 0 ==> p.marcos.len() > 0
                },
        ensures
            final(self).wf(),
            final(self).sig_pid() == old(self).sig_pid(),
            final(self).quantum() == old(self).quantum(),
            final(self).disco() == old(self).disco(),
            ({
                let (s1, ev) = ronda(
                    EstadoRR { listos: Seq::empty(), ..old(self).estado_rr(old(t)@) },
                    old(self).listos(),
                    old(self).quantum(),
                );
                &&& final(self).estado_rr(final(t)@) == s1
                &&& vista_eventos(r@) == ev
            }),
    {
        let ghost s0 = EstadoRR { listos: Seq::empty(), ..self.estado_rr(t@) };
        let ghost q = self.quantum;
        let ghost sig = self.sig_pid;
        let mut turno: Vec<Pid> = Vec::new();
        std::mem::swap(&mut turno, &mut self.listos);
        let ghost tr = turno@;
        let mut eventos: Vec<EventoCpu> = Vec::new();
        proof {
            assert(self.listos@ =~= Seq::<Pid>::empty());
            assert(self.estado_rr(t@) == s0);
            assert(eventos@.map_values(|e: EventoCpu| e@) =~= Seq::<EventoV>::empty());
            assert(s0.listos + tr =~= tr);
            assert(s0.listos + tr.skip(0) =~= old(self).listos@);
            self.mem.lema_tamanos();
            assert(turno@.skip(0) =~= tr);
            assert(tr.take(0) =~= Seq::<Pid>::empty());
            assert forall|j: int| 0 <= j < tr.len() implies buscar(s0.procs, #[trigger] tr[j]) is Some by {
                assert(vivo(s0.procs, tr[j]));
            }
            lema_trabajo_prefijo(s0.procs, tr, q, 0);
        }
        let mut k: usize = 0;
        while k < turno.len()
            invariant
                turno@ == tr,
                k <= tr.len(),
                self.quantum == q,
                self.sig_pid == sig,
                self.disco() == old(self).disco(),
                self.mem.wf(),
                ({
                    let (sk, evk) = ronda(s0, tr.take(k as int), q);
                    &&& self.estado_rr(t@) == sk
                    &&& eventos@.map_values(|e: EventoCpu| e@) == evk
                }),
                parcial(self.estado_rr(t@), tr.skip(k as int), sig),
                self.procesos().len() == s0.procs.len(),
                forall|x: Pid| #[trigger] buscar(self.procesos(), x) == buscar(s0.procs, x),
                forall|j: int| k <= j < tr.len() ==> #[trigger] self.procesos()[buscar(s0.procs, tr[j])->0]
                    == s0.procs[buscar(s0.procs, tr[j])->0],
                forall|j: int| 0 <= j < tr.len() ==> buscar(s0.procs, #[trigger] tr[j]) is Some,
                hechas_validas(s0.procs),
                self.ciclos() == s0.ciclos + trabajo(s0.procs, tr.take(k as int), q),
                s0.ciclos + trabajo(s0.procs, tr, q) <= u64::MAX,
                forall|j: int|
                    0 <= j < tr.len() ==> {
                        let p = s0.procs[buscar(s0.procs, #[trigger] tr[j])->0];
                        a_ejecutar(p, q) > 0 ==> p.marcos.len() > 0
                    },
            decreases tr.len() - k,
        {
            let ghost sk = self.estado_rr(t@);
            let ghost evs = eventos@;
            let pid = turno[k];
            proof {
                assert(tr.skip(k as int)[0] == pid);
                assert((sk.listos + tr.skip(k as int))[sk.listos.len() as int] == pid);
                assert(vivo(sk.procs, pid));
            }
            let i = match self.indice(pid) {
                Some(i) => i,
                None => 0,
            };
            proof {
                let ii = buscar(s0.procs, pid)->0;
                assert(i == ii);
                lema_trabajo_prefijo(s0.procs, tr, q, k as int + 1);
                assert(tr.take(k as int + 1).drop_last() =~= tr.take(k as int));
                assert(tr.take(k as int + 1).last() == pid);
                let p = self.procesos()[i as int];
                assert forall|m: int| 0 <= m < p.marcos.len() implies #[trigger] p.marcos[m] < self.ram().len() by {
                    assert(p.marcos[m] < self.duenos().len());
                }
            }
            let e = self.dar_cpu(i, t);
            eventos.push(e);
            proof {
                lema_turno(sk, tr.skip(k as int), q, sig);
                assert(tr.skip(k as int).drop_first() =~= tr.skip(k as int + 1));
                let f = |e: EventoCpu| e@;
                assert(eventos@.map_values(f) =~= evs.map_values(f).push(e@));
                assert forall|j: int| k + 1 <= j < tr.len() implies #[trigger] self.procesos()[buscar(s0.procs, tr[j])->0]
                    == s0.procs[buscar(s0.procs, tr[j])->0] by {
                    assert(tr[j] == tr.skip(k as int).drop_first()[j - k - 1]);
                }
            }
            k = k + 1;
        }
        proof {
            assert(tr.take(k as int) =~= tr);
            assert(self.listos@ + tr.skip(k as int) =~= self.listos@);
            assert(vista_eventos(eventos@) =~= eventos@.map_values(|e: EventoCpu| e@));
        }
        eventos
    }

    /// Whether creating a process with `paginas` pages leaves the pid
    /// counter in range.
    pub fn admite_creacion(&self, paginas: usize) -> (b: bool)
        requires
            self.wf(),
        ensures
            b == (paginas <= libres(self.duenos()).len() ==> self.sig_pid() < u32::MAX),
    {
        let n = self.mem.num_libres();
        !(paginas <= n) || self.sig_pid < u32::MAX
    }

    /// Whether reading a block for `pid` finds a frame to load it into.
    pub fn admite_lectura(&self, pid: Pid) -> (b: bool)
        requires
            self.wf(),
        ensures
            b == (vivo(self.procesos(), pid) ==> self.procesos()[buscar(self.procesos(), pid)->0].marcos.len() > 0),
    {
        match self.indice(pid) {
            Some(i) => !matches!(self.pcbs[i].estado, Estado::Listo) || self.pcbs[i].marcos.len() > 0,
            None => true,
        }
    }

    /// Whether a round keeps the clock in range and every process that has
    /// to run holds a frame.
    pub fn admite_ronda(&self) -> (b: bool)
        requires
            self.wf(),
        ensures
            b == ({
                &&& self.ciclos() + trabajo(self.procesos(), self.listos(), self.quantum()) <= u64::MAX
                &&& forall|k: int|
                    0 <= k < self.listos().len() ==> {
                        let p = self.procesos()[buscar(self.procesos(), #[trigger] self.listos()[k])->0];
                        a_ejecutar(p, self.quantum()) > 0 ==> p.marcos.len() > 0
                    }
            }),
    {
        let ghost s = self.procesos();
        let ghost l = self.listos@;
        let q = self.quantum;
        let mut suma: u128 = 0;
        let mut ok = true;
        let mut k: usize = 0;
        while k < self.listos.len()
            invariant
                k <= l.len(),
                self.listos@ == l,
                self.procesos() == s,
                self.quantum == q,
                self.wf(),
                suma == trabajo(s, l.take(k as int), q),
                suma <= k * (u32::MAX as int),
                ok == forall|j: int|
                    0 <= j < k ==> {
                        let p = s[buscar(s, #[trigger] l[j])->0];
                        a_ejecutar(p, q) > 0 ==> p.marcos.len() > 0
                    },
            decreases l.len() - k,
        {
            let pid = self.listos[k];
            proof {
                assert(vivo(s, l[k as int]));
                assert(l.take(k as int + 1).drop_last() =~= l.take(k as int));
                assert(l.take(k as int + 1).last() == pid);
            }
            let i = match self.indice(pid) {
                Some(i) => i,
                None => 0,
            };
            let pend = self.pcbs[i].total - self.pcbs[i].hechas;
            let a = if pend <= q {
                pend
            } else {
                q
            };
            proof {
                assert(self.procesos()[i as int] == self.pcbs@[i as int].v());
                assert(a as int == a_ejecutar(s[i as int], q));
                assert((k + 1) * (u32::MAX as int) == k * (u32::MAX as int) + u32::MAX) by (nonlinear_arith);
                assert(k * (u32::MAX as int) <= usize::MAX as int * (u32::MAX as int)) by (nonlinear_arith)
                    requires k <= usize::MAX;
                assert(usize::MAX as int * (u32::MAX as int) < u128::MAX as int) by (nonlinear_arith)
                    requires usize::MAX <= u64::MAX;
            }
            suma = suma + a as u128;
            if a > 0 && self.pcbs[i].marcos.len() == 0 {
                ok = false;
            }
            k = k + 1;
        }
        proof {
            assert(l.take(k as int) =~= l);
        }
        let c = self.mem.reloj_actual();
        ok && (c as u128) + suma <= u64::MAX as u128
    }

    /// Position of the block of `pid`.
    fn indice(&self, pid: Pid) -> (r: Option<usize>)
        requires
            pids_ordenados(self.procesos(), self.sig_pid),
        ensures
            match r {
                Some(i) => buscar(self.procesos(), pid) == Some(i as int),
                None => buscar(self.procesos(), pid) is None,
            },
    {
        let mut i: usize = 0;
        while i < self.pcbs.len()
            invariant
                i <= self.pcbs@.len(),
                pids_ordenados(self.procesos(), self.sig_pid),
                forall|j: int| 0 <= j < i ==> #[trigger] self.procesos()[j].pid != pid,
            decreases self.pcbs@.len() - i,
        {
            if self.pcbs[i].pid == pid {
                proof {
                    lema_buscar(self.procesos(), pid, i as int);
                }
                return Some(i);
            }
            i = i + 1;
        }
        None
    }
}

} // verus!
