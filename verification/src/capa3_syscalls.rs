//! Layer 3: system call interface.
//!
//! The single entry point for user programs (like a trap). It turns the
//! internal errors into errno-like numeric codes, so that the user never sees
//! the types of the layers below.
use vstd::prelude::*;

use crate::capa1_memoria::{
    lema_libres_hasta, lema_usados_ninguno, ley_asignar, ley_soltar, asignar, cuenta_de, cuenta_usados, libres, limpiar, largo_bytes, pasos_carga, pasos_reserva,
    soltar, ErrorMemoria, Pid,
};
use crate::capa2_procesos::{
    apta_rr, buscar, cabe_en, info_de, rondas_pendientes, lema_ronda_acerca, lema_ronda_completos, lema_ronda_cuenta, lema_ronda_sin_huerfanos, marcos_completos, lema_suma_update, ronda, sin, sin_huerfanos,
    suma_hechas, trabajo, a_ejecutar, turno_de, valida, vista_eventos, vivo, ErrorProcesos, Estado, EstadoRR,
    EventoCpu, EventoV, GestorProcesos, InfoProceso, InfoV, ProcV, VistaProcesos,
};
use crate::traza::{
    bajada, bajar, lema_anotar_concat, llegadas, sumar_mod, subida, subir, Op, Paso, PasoV, Traza, VistaTraza,
};

verus! {

/// No such process.
pub const ESRCH: i32 = -3;

/// Input/output error.
pub const EIO: i32 = -5;

/// Out of memory.
pub const ENOMEM: i32 = -12;

#[derive(Debug)]
pub enum Syscall {
    CrearProceso { nombre: String, paginas: usize, instrucciones: u32 },
    Planificar,
    LeerBloque { pid: Pid, bloque: usize },
    Terminar { pid: Pid },
    ListarProcesos,
    UsoMemoria,
    Reloj,
}

pub enum SyscallV {
    CrearProceso { nombre: Seq<char>, paginas: usize, instrucciones: u32 },
    Planificar,
    LeerBloque { pid: Pid, bloque: usize },
    Terminar { pid: Pid },
    ListarProcesos,
    UsoMemoria,
    Reloj,
}

impl View for Syscall {
    type V = SyscallV;

    open spec fn view(&self) -> SyscallV {
        match self {
            Syscall::CrearProceso { nombre, paginas, instrucciones } => SyscallV::CrearProceso {
                nombre: nombre@,
                paginas: *paginas,
                instrucciones: *instrucciones,
            },
            Syscall::Planificar => SyscallV::Planificar,
            Syscall::LeerBloque { pid, bloque } => SyscallV::LeerBloque { pid: *pid, bloque: *bloque },
            Syscall::Terminar { pid } => SyscallV::Terminar { pid: *pid },
            Syscall::ListarProcesos => SyscallV::ListarProcesos,
            Syscall::UsoMemoria => SyscallV::UsoMemoria,
            Syscall::Reloj => SyscallV::Reloj,
        }
    }
}

#[derive(Debug)]
pub enum Retorno {
    Pid(Pid),
    Ronda(Vec<EventoCpu>),
    Datos(String),
    Liberados(usize),
    Procesos(Vec<InfoProceso>),
    Memoria { usados: usize, total: usize, mapa: Vec<Option<Pid>> },
    Reloj(u64),
    Error { codigo: i32, nombre: &'static str },
}

pub enum RetornoV {
    Pid(Pid),
    Ronda(Seq<EventoV>),
    Datos(Seq<char>),
    Liberados(usize),
    Procesos(Seq<InfoV>),
    Memoria { usados: usize, total: usize, mapa: Seq<Option<Pid>> },
    Reloj(u64),
    Error { codigo: i32, nombre: Seq<char> },
}

impl View for Retorno {
    type V = RetornoV;

    open spec fn view(&self) -> RetornoV {
        match self {
            Retorno::Pid(p) => RetornoV::Pid(*p),
            Retorno::Ronda(e) => RetornoV::Ronda(vista_eventos(e@)),
            Retorno::Datos(d) => RetornoV::Datos(d@),
            Retorno::Liberados(n) => RetornoV::Liberados(*n),
            Retorno::Procesos(l) => RetornoV::Procesos(l@.map_values(|x: InfoProceso| x@)),
            Retorno::Memoria { usados, total, mapa } => RetornoV::Memoria {
                usados: *usados,
                total: *total,
                mapa: mapa@,
            },
            Retorno::Reloj(c) => RetornoV::Reloj(*c),
            Retorno::Error { codigo, nombre } => RetornoV::Error { codigo: *codigo, nombre: nombre@ },
        }
    }
}

/// Code and name that the user sees for an error of the process layer.
pub open spec fn codigo_de(e: ErrorProcesos) -> (i32, &'static str) {
    match e {
        ErrorProcesos::SinMemoria(_) => (ENOMEM, "ENOMEM"),
        ErrorProcesos::PidInexistente(_) => (ESRCH, "ESRCH"),
        ErrorProcesos::Disco(_) => (EIO, "EIO"),
    }
}

pub open spec fn retorno_error(e: ErrorProcesos) -> RetornoV {
    RetornoV::Error { codigo: codigo_de(e).0, nombre: codigo_de(e).1@ }
}

pub open spec fn paso_error(e: ErrorProcesos) -> PasoV {
    subida(3, Op::DevuelveError { codigo: codigo_de(e).0, nombre: codigo_de(e).1 })
}

/// Whether the layers below can serve `s` without running out of clock or
/// pids, and without a process that must run but holds no frame.
pub open spec fn admisible(v: VistaProcesos, s: SyscallV) -> bool {
    match s {
        SyscallV::CrearProceso { paginas, .. } => paginas <= libres(v.duenos).len() ==> v.sig_pid
            < u32::MAX,
        SyscallV::Planificar => {
            &&& v.ciclos + trabajo(v.procs, v.listos, v.quantum) <= u64::MAX
            &&& forall|k: int|
                0 <= k < v.listos.len() ==> {
                    let p = v.procs[buscar(v.procs, #[trigger] v.listos[k])->0];
                    a_ejecutar(p, v.quantum) > 0 ==> p.marcos.len() > 0
                }
        },
        SyscallV::LeerBloque { pid, .. } => vivo(v.procs, pid) ==> v.procs[buscar(
            v.procs,
            pid,
        )->0].marcos.len() > 0,
        _ => true,
    }
}

/// What serving the call `s` does: the new state of the layers below, what
/// the user gets back, and the trace afterwards.
pub open spec fn efecto(v: VistaProcesos, t: VistaTraza, s: SyscallV) -> (
    VistaProcesos,
    RetornoV,
    VistaTraza,
) {
    match s {
        SyscallV::CrearProceso { nombre, paginas, instrucciones } => {
            let t1 = t.anotar(
                seq![
                    PasoV {
                        desde: 3,
                        baja: true,
                        op: Op::Crear { paginas, instrucciones },
                        marcos: Seq::empty(),
                        texto: nombre,
                    },
                ],
            );
            let l = libres(v.duenos);
            if paginas <= l.len() {
                let pid = v.sig_pid;
                let a = l.take(paginas as int);
                (
                    VistaProcesos {
                        procs: v.procs.push(
                            ProcV {
                                pid,
                                nombre,
                                estado: Estado::Listo,
                                marcos: a,
                                hechas: 0,
                                total: instrucciones,
                            },
                        ),
                        listos: v.listos.push(pid),
                        sig_pid: (pid + 1) as u32,
                        duenos: asignar(v.duenos, a, pid),
                        ram: limpiar(v.ram, a),
                        ..v
                    },
                    RetornoV::Pid(pid),
                    t1.anotar(
                        seq![bajada(2, Op::Reservar { pid, paginas })] + pasos_reserva(a) + seq![
                            subida(2, Op::PcbCreado { pid }),
                            subida(3, Op::DevuelvePid { pid }),
                        ],
                    ),
                )
            } else {
                let em = ErrorMemoria::SinMarcos { pedidos: paginas, libres: l.len() as usize };
                let e = ErrorProcesos::SinMemoria(em);
                (
                    v,
                    retorno_error(e),
                    t1.anotar(
                        seq![
                            bajada(2, Op::Reservar { pid: v.sig_pid, paginas }),
                            subida(1, Op::FalloMemoria(em)),
                            subida(2, Op::FalloProcesos(e)),
                            paso_error(e),
                        ],
                    ),
                )
            }
        },
        SyscallV::Planificar => {
            let t1 = t.anotar(seq![bajada(3, Op::EjecutarRonda)]);
            let (s1, ev) = ronda(
                EstadoRR {
                    procs: v.procs,
                    listos: Seq::empty(),
                    duenos: v.duenos,
                    ram: v.ram,
                    ciclos: v.ciclos as int,
                    traza: t1,
                },
                v.listos,
                v.quantum,
            );
            (
                VistaProcesos {
                    procs: s1.procs,
                    listos: s1.listos,
                    duenos: s1.duenos,
                    ram: s1.ram,
                    ciclos: s1.ciclos as u64,
                    ..v
                },
                RetornoV::Ronda(ev),
                s1.traza,
            )
        },
        SyscallV::LeerBloque { pid, bloque } => {
            let t1 = t.anotar(seq![bajada(3, Op::LeerBloqueDe { pid, bloque })]);
            if !vivo(v.procs, pid) {
                let e = ErrorProcesos::PidInexistente(pid);
                (v, retorno_error(e), t1.anotar(seq![subida(2, Op::FalloProcesos(e)), paso_error(e)]))
            } else {
                let marco = v.procs[buscar(v.procs, pid)->0].marcos[0];
                if bloque < v.disco.len() {
                    let d = v.disco[bloque as int];
                    (
                        VistaProcesos {
                            ram: v.ram.update(marco as int, largo_bytes(d@) as usize as u32),
                            ..v
                        },
                        RetornoV::Datos(d@),
                        t1.anotar(
                            seq![bajada(2, Op::CargarBloque { bloque, marco })] + pasos_carga(
                                bloque,
                                marco,
                                Some(d),
                            ) + seq![subida(2, Op::DatosLeidos), subida(3, Op::DevuelveDatos)],
                        ),
                    )
                } else {
                    let e = ErrorProcesos::Disco(ErrorMemoria::BloqueInexistente(bloque));
                    (
                        v,
                        retorno_error(e),
                        t1.anotar(
                            seq![bajada(2, Op::CargarBloque { bloque, marco })] + pasos_carga(
                                bloque,
                                marco,
                                None,
                            ) + seq![subida(2, Op::FalloProcesos(e)), paso_error(e)],
                        ),
                    )
                }
            }
        },
        SyscallV::Terminar { pid } => {
            let t1 = t.anotar(seq![bajada(3, Op::Terminar { pid })]);
            if vivo(v.procs, pid) {
                let i = buscar(v.procs, pid)->0;
                let n = cuenta_de(v.duenos, pid) as usize;
                (
                    VistaProcesos {
                        procs: v.procs.update(
                            i,
                            ProcV { estado: Estado::Terminado, marcos: Seq::empty(), ..v.procs[i] },
                        ),
                        listos: sin(v.listos, pid),
                        duenos: soltar(v.duenos, pid),
                        ..v
                    },
                    RetornoV::Liberados(n),
                    t1.anotar(
                        seq![
                            bajada(2, Op::Liberar { pid }),
                            subida(1, Op::MarcosLibresDeNuevo { n }),
                            subida(2, Op::MarcosLiberados { n }),
                            subida(3, Op::DevuelveCero),
                        ],
                    ),
                )
            } else {
                let e = ErrorProcesos::PidInexistente(pid);
                (v, retorno_error(e), t1.anotar(seq![paso_error(e)]))
            }
        },
        SyscallV::ListarProcesos => (
            v,
            RetornoV::Procesos(v.procs.map_values(|p: ProcV| info_de(p))),
            t.anotar(
                seq![
                    bajada(3, Op::Listar),
                    subida(2, Op::CopiaPcbs { n: v.procs.len() as usize }),
                    subida(3, Op::DevuelveLista),
                ],
            ),
        ),
        SyscallV::UsoMemoria => {
            let u = cuenta_usados(v.duenos) as usize;
            let tot = v.duenos.len() as usize;
            (
                v,
                RetornoV::Memoria { usados: u, total: tot, mapa: v.duenos },
                t.anotar(
                    seq![
                        bajada(3, Op::UsoMemoria),
                        bajada(2, Op::PedirUso),
                        subida(1, Op::UsoMarcos { usados: u, total: tot }),
                        subida(2, Op::UsoConMapa),
                        subida(3, Op::DevuelveUso),
                    ],
                ),
            )
        },
        SyscallV::Reloj => (
            v,
            RetornoV::Reloj(v.ciclos),
            t.anotar(seq![bajada(3, Op::Reloj), bajada(2, Op::Reloj), bajada(1, Op::Reloj)]),
        ),
    }
}

/// A process that asks for more frames than are free: the error is born in
/// the memory layer and reaches the user as -12 ENOMEM; nothing changes
/// below.
pub proof fn ley_sin_memoria(v: VistaProcesos, t: VistaTraza, nombre: Seq<char>, paginas: usize, instrucciones: u32)
    requires
        paginas > libres(v.duenos).len(),
    ensures
        efecto(v, t, SyscallV::CrearProceso { nombre, paginas, instrucciones }).0 == v,
        efecto(v, t, SyscallV::CrearProceso { nombre, paginas, instrucciones }).1 == (RetornoV::Error {
            codigo: ENOMEM,
            nombre: "ENOMEM"@,
        }),
{
}

/// A pid that names no running process is stopped by the process layer:
/// the user gets -3 ESRCH, nothing changes below, and neither the memory
/// layer nor the hardware receive a call.
pub proof fn ley_pid_invalido(v: VistaProcesos, t: VistaTraza, pid: Pid, bloque: usize)
    requires
        !vivo(v.procs, pid),
    ensures
        efecto(v, t, SyscallV::LeerBloque { pid, bloque }).0 == v,
        efecto(v, t, SyscallV::LeerBloque { pid, bloque }).1 == (RetornoV::Error {
            codigo: ESRCH,
            nombre: "ESRCH"@,
        }),
        forall|c: int|
            0 <= c < 2 && c < t.recibidas.len() ==> #[trigger] efecto(v, t, SyscallV::LeerBloque { pid, bloque }).2.recibidas[c]
                == t.recibidas[c],
{
    let e = ErrorProcesos::PidInexistente(pid);
    let a = seq![bajada(3, Op::LeerBloqueDe { pid, bloque })];
    let b = seq![subida(2, Op::FalloProcesos(e)), paso_error(e)];
    lema_anotar_concat(t, a, b);
    assert forall|c: int| 0 <= c < 2 && c < t.recibidas.len() implies #[trigger] t.anotar(a + b).recibidas[c]
        == t.recibidas[c] by {
        let ab = a + b;
        let ab1 = ab.drop_last();
        let ab2 = ab1.drop_last();
        let ab3 = ab2.drop_last();
        assert(ab3 =~= Seq::<PasoV>::empty());
        assert(llegadas(ab3, c) == 0);
        assert(ab2.last() == bajada(3, Op::LeerBloqueDe { pid, bloque }));
        assert(llegadas(ab2, c) == 0);
        assert(!ab1.last().baja);
        assert(llegadas(ab1, c) == 0);
        assert(!ab.last().baja);
        assert(llegadas(ab, c) == 0);
        vstd::arithmetic::div_mod::lemma_small_mod(t.recibidas[c] as nat, usize::MAX as nat + 1);
    }
}

/// Ending a process frees exactly its frames: it is told how many, none
/// is left to it, and every other process keeps its own.
pub proof fn ley_terminar(v: VistaProcesos, t: VistaTraza, pid: Pid)
    requires
        vivo(v.procs, pid),
    ensures
        ({
            let (v1, r, _) = efecto(v, t, SyscallV::Terminar { pid });
            &&& r == RetornoV::Liberados(cuenta_de(v.duenos, pid) as usize)
            &&& v1.procs[buscar(v.procs, pid)->0].estado == Estado::Terminado
            &&& cuenta_de(v1.duenos, pid) == 0
            &&& cuenta_usados(v1.duenos) + cuenta_de(v.duenos, pid) == cuenta_usados(v.duenos)
            &&& forall|q: Pid| q != pid ==> #[trigger] cuenta_de(v1.duenos, q) == cuenta_de(v.duenos, q)
        }),
{
    ley_soltar(v.duenos, pid);
}

/// Creating a process takes exactly the frames it asks for, all of them
/// for it, and gives it the next pid; with no orphan frames, those are all
/// the frames it holds.
pub proof fn ley_crear(v: VistaProcesos, t: VistaTraza, nombre: Seq<char>, paginas: usize, instrucciones: u32)
    requires
        valida(v),
        paginas <= libres(v.duenos).len(),
    ensures
        ({
            let (v1, r, _) = efecto(v, t, SyscallV::CrearProceso { nombre, paginas, instrucciones });
            &&& r == RetornoV::Pid(v.sig_pid)
            &&& cuenta_usados(v1.duenos) == cuenta_usados(v.duenos) + paginas
            &&& cuenta_de(v1.duenos, v.sig_pid) == cuenta_de(v.duenos, v.sig_pid) + paginas
            &&& sin_huerfanos(v.procs, v.duenos) ==> cuenta_de(v1.duenos, v.sig_pid) == paginas
        }),
{
    let d = v.duenos;
    let l = libres(d);
    let a = l.take(paginas as int);
    lema_libres_hasta(d, d.len() as int);
    assert forall|x: int, y: int| 0 <= x < y < a.len() implies a[x] != a[y] by {
        assert(a[x] == l[x]);
        assert(a[y] == l[y]);
    }
    assert forall|k: int| 0 <= k < a.len() implies #[trigger] a[k] < d.len() && d[a[k] as int] is None by {
        assert(a[k] == l[k]);
    }
    ley_asignar(d, a, v.sig_pid);
    if sin_huerfanos(v.procs, v.duenos) {
        assert forall|m: int| 0 <= m < d.len() implies #[trigger] d[m] != Some(v.sig_pid) by {
            if d[m] == Some(v.sig_pid) {
                let i = choose|i: int| 0 <= i < v.procs.len() && #[trigger] v.procs[i].pid == v.sig_pid;
                assert(v.procs[i].pid < v.sig_pid);
            }
        }
        lema_cuenta_cero(d, v.sig_pid);
    }
}

proof fn lema_cuenta_cero(d: Seq<Option<Pid>>, pid: Pid)
    requires
        forall|m: int| 0 <= m < d.len() ==> #[trigger] d[m] != Some(pid),
    ensures
        cuenta_de(d, pid) == 0,
    decreases d.len(),
{
    if d.len() > 0 {
        let r = d.drop_last();
        assert forall|m: int| 0 <= m < r.len() implies #[trigger] r[m] != Some(pid) by {
            assert(r[m] == d[m]);
        }
        lema_cuenta_cero(r, pid);
        assert(d[d.len() - 1] != Some(pid));
    }
}

/// Memory is held only by running processes: a finished process holds no
/// frame; when every process has finished and no frame was given to a pid
/// that is not a process, no frame is used.
pub proof fn ley_memoria_de_vivos(v: VistaProcesos)
    requires
        valida(v),
    ensures
        forall|m: int|
            0 <= m < v.duenos.len() && #[trigger] v.duenos[m] is Some && buscar(v.procs, v.duenos[m]->0) is Some
                ==> vivo(v.procs, v.duenos[m]->0),
        sin_huerfanos(v.procs, v.duenos) && (forall|i: int|
            0 <= i < v.procs.len() ==> (#[trigger] v.procs[i]).estado == Estado::Terminado) ==> cuenta_usados(
            v.duenos,
        ) == 0,
{
    if sin_huerfanos(v.procs, v.duenos) && forall|i: int|
        0 <= i < v.procs.len() ==> (#[trigger] v.procs[i]).estado == Estado::Terminado {
        assert forall|m: int| 0 <= m < v.duenos.len() implies #[trigger] v.duenos[m] is None by {
            if v.duenos[m] is Some {
                let i = buscar(v.procs, v.duenos[m]->0)->0;
                assert(v.procs[i].estado == Estado::Terminado);
            }
        }
        lema_usados_ninguno(v.duenos);
    }
}

/// No operation gives a frame to a pid that is not a process: a system
/// that starts with no orphan frame never has one.
pub proof fn ley_sin_huerfanos(v: VistaProcesos, t: VistaTraza, s: SyscallV)
    requires
        valida(v),
        sin_huerfanos(v.procs, v.duenos),
    ensures
        sin_huerfanos(efecto(v, t, s).0.procs, efecto(v, t, s).0.duenos),
{
    let v1 = efecto(v, t, s).0;
    match s {
        SyscallV::CrearProceso { nombre, paginas, instrucciones } => {
            if paginas <= libres(v.duenos).len() {
                let pid = v.sig_pid;
                let a = libres(v.duenos).take(paginas as int);
                assert forall|m: int| 0 <= m < v1.duenos.len() && #[trigger] v1.duenos[m] is Some implies buscar(
                    v1.procs,
                    v1.duenos[m]->0,
                ) is Some by {
                    let x = v1.duenos[m]->0;
                    if a.contains(m as usize) {
                        assert(v1.procs[v.procs.len() as int].pid == pid);
                    } else {
                        assert(v1.duenos[m] == v.duenos[m]);
                        let i = choose|i: int| 0 <= i < v.procs.len() && #[trigger] v.procs[i].pid == x;
                        assert(v1.procs[i] == v.procs[i]);
                    }
                }
            }
        },
        SyscallV::Planificar => {
            let t1 = t.anotar(seq![bajada(3, Op::EjecutarRonda)]);
            let s0 = EstadoRR {
                procs: v.procs,
                listos: Seq::empty(),
                duenos: v.duenos,
                ram: v.ram,
                ciclos: v.ciclos as int,
                traza: t1,
            };
            assert forall|k: int| 0 <= k < v.listos.len() implies buscar(s0.procs, #[trigger] v.listos[k]) is Some by {
                assert(vivo(v.procs, v.listos[k]));
            }
            lema_ronda_sin_huerfanos(s0, v.listos, v.quantum);
        },
        SyscallV::Terminar { pid } => {
            if vivo(v.procs, pid) {
                let i = buscar(v.procs, pid)->0;
                assert forall|m: int| 0 <= m < v1.duenos.len() && #[trigger] v1.duenos[m] is Some implies buscar(
                    v1.procs,
                    v1.duenos[m]->0,
                ) is Some by {
                    let x = v1.duenos[m]->0;
                    assert(v1.duenos[m] == v.duenos[m]);
                    let j = choose|j: int| 0 <= j < v.procs.len() && #[trigger] v.procs[j].pid == x;
                    assert(v1.procs[j].pid == x);
                }
            }
        },
        _ => {},
    }
}

/// A round of Round Robin gives the CPU once to each process of the queue,
/// in its order.
pub proof fn ley_ronda_en_orden(s: EstadoRR, turno: Seq<Pid>, q: u32)
    ensures
        ronda(s, turno, q).1.len() == turno.len(),
        forall|k: int| 0 <= k < turno.len() ==> (#[trigger] ronda(s, turno, q).1[k]).pid == turno[k],
    decreases turno.len(),
{
    if turno.len() > 0 {
        ley_ronda_en_orden(s, turno.drop_last(), q);
        let ev = ronda(s, turno, q).1;
        assert forall|k: int| 0 <= k < turno.len() implies (#[trigger] ronda(s, turno, q).1[k]).pid == turno[k] by {
            if k < turno.len() - 1 {
                assert(ev[k] == ronda(s, turno.drop_last(), q).1[k]);
            }
        }
    }
}

/// The error, if any, with which the process layer answers the call `s`:
/// creating fails when fewer frames are free than asked for, reading when
/// the process is not running or the block does not exist, ending when the
/// process is not running; the other calls do not fail.
pub open spec fn error_procesos(v: VistaProcesos, s: SyscallV) -> Option<ErrorProcesos> {
    match s {
        SyscallV::CrearProceso { paginas, .. } => if paginas <= libres(v.duenos).len() {
            None
        } else {
            Some(
                ErrorProcesos::SinMemoria(
                    ErrorMemoria::SinMarcos { pedidos: paginas, libres: libres(v.duenos).len() as usize },
                ),
            )
        },
        SyscallV::LeerBloque { pid, bloque } => if !vivo(v.procs, pid) {
            Some(ErrorProcesos::PidInexistente(pid))
        } else if bloque >= v.disco.len() {
            Some(ErrorProcesos::Disco(ErrorMemoria::BloqueInexistente(bloque)))
        } else {
            None
        },
        SyscallV::Terminar { pid } => if vivo(v.procs, pid) {
            None
        } else {
            Some(ErrorProcesos::PidInexistente(pid))
        },
        _ => None,
    }
}

/// Each system call mirrors the call of the process layer below it: where
/// that layer fails with `e`, the user gets the code and name of `e` and
/// nothing changes below; otherwise the user gets what that layer returned:
/// the new pid, the block read, the number of frames freed, the events of
/// the round, the control blocks, the frame map with its counts, the clock.
pub proof fn ley_espejo(v: VistaProcesos, t: VistaTraza, s: SyscallV)
    ensures
        ({
            let (v1, r, _) = efecto(v, t, s);
            match error_procesos(v, s) {
                Some(e) => r == retorno_error(e) && v1 == v,
                None => match s {
                    SyscallV::CrearProceso { .. } => r == RetornoV::Pid(v.sig_pid),
                    SyscallV::LeerBloque { bloque, .. } => r == RetornoV::Datos(v.disco[bloque as int]@),
                    SyscallV::Terminar { pid } => r == RetornoV::Liberados(cuenta_de(v.duenos, pid) as usize),
                    SyscallV::Planificar => r == RetornoV::Ronda(
                        ronda(
                            EstadoRR {
                                procs: v.procs,
                                listos: Seq::empty(),
                                duenos: v.duenos,
                                ram: v.ram,
                                ciclos: v.ciclos as int,
                                traza: t.anotar(seq![bajada(3, Op::EjecutarRonda)]),
                            },
                            v.listos,
                            v.quantum,
                        ).1,
                    ),
                    SyscallV::ListarProcesos => r == RetornoV::Procesos(v.procs.map_values(|p: ProcV| info_de(p))),
                    SyscallV::UsoMemoria => r == (RetornoV::Memoria {
                        usados: cuenta_usados(v.duenos) as usize,
                        total: v.duenos.len() as usize,
                        mapa: v.duenos,
                    }),
                    SyscallV::Reloj => r == RetornoV::Reloj(v.ciclos),
                },
            }
        }),
{
}

/// Every call keeps the processes listed so far, each at its place with its
/// pid (finished ones stay listed); a creation answered with a pid adds
/// exactly one process, with that pid, at the end; every other answer adds
/// none. So the listing holds one entry per successful creation.
pub proof fn ley_una_entrada_por_creacion(v: VistaProcesos, t: VistaTraza, s: SyscallV)
    requires
        valida(v),
    ensures
        ({
            let (v1, r, _) = efecto(v, t, s);
            &&& forall|k: int| 0 <= k < v.procs.len() ==> #[trigger] v1.procs[k].pid == v.procs[k].pid
            &&& match r {
                RetornoV::Pid(p) => v1.procs.len() == v.procs.len() + 1 && v1.procs[v.procs.len() as int].pid == p,
                _ => v1.procs.len() == v.procs.len(),
            }
        }),
{
    if s is Planificar {
        let s0 = EstadoRR {
            procs: v.procs,
            listos: Seq::empty(),
            duenos: v.duenos,
            ram: v.ram,
            ciclos: v.ciclos as int,
            traza: t.anotar(seq![bajada(3, Op::EjecutarRonda)]),
        };
        assert forall|k: int| 0 <= k < v.listos.len() implies buscar(s0.procs, #[trigger] v.listos[k]) is Some by {
            assert(vivo(v.procs, v.listos[k]));
        }
        lema_ronda_cuenta(s0, v.listos, v.quantum);
    }
}

/// The clock counts one tick per instruction run: no call changes the
/// difference between the clock and the instructions done by all
/// processes. A system whose clock starts at zero, with no process, thus
/// has on its clock at every moment exactly the instructions done.
pub proof fn ley_reloj(v: VistaProcesos, t: VistaTraza, s: SyscallV)
    requires
        valida(v),
        admisible(v, s),
    ensures
        efecto(v, t, s).0.ciclos - suma_hechas(efecto(v, t, s).0.procs) == v.ciclos - suma_hechas(v.procs),
{
    let v1 = efecto(v, t, s).0;
    match s {
        SyscallV::CrearProceso { paginas, .. } => {
            if paginas <= libres(v.duenos).len() {
                assert(v1.procs.drop_last() =~= v.procs);
            }
        },
        SyscallV::Planificar => {
            let s0 = EstadoRR {
                procs: v.procs,
                listos: Seq::empty(),
                duenos: v.duenos,
                ram: v.ram,
                ciclos: v.ciclos as int,
                traza: t.anotar(seq![bajada(3, Op::EjecutarRonda)]),
            };
            assert forall|k: int| 0 <= k < v.listos.len() implies buscar(s0.procs, #[trigger] v.listos[k]) is Some by {
                assert(vivo(v.procs, v.listos[k]));
            }
            lema_ronda_cuenta(s0, v.listos, v.quantum);
        },
        SyscallV::Terminar { pid } => {
            if vivo(v.procs, pid) {
                let i = buscar(v.procs, pid)->0;
                lema_suma_update(v.procs, i, v1.procs[i]);
            }
        },
        _ => {},
    }
}

/// The frames owned by `pid`.
pub open spec fn marcos_de(d: Seq<Option<Pid>>, pid: Pid) -> Set<usize> {
    Set::new(|m: usize| (m as int) < d.len() && d[m as int] == Some(pid))
}

proof fn lema_cuenta_de_conjunto(d: Seq<Option<Pid>>, pid: Pid)
    requires
        d.len() <= usize::MAX,
    ensures
        marcos_de(d, pid).finite(),
        marcos_de(d, pid).len() == cuenta_de(d, pid),
    decreases d.len(),
{
    if d.len() == 0 {
        assert(marcos_de(d, pid) =~= Set::empty());
    } else {
        let r = d.drop_last();
        lema_cuenta_de_conjunto(r, pid);
        let n = (d.len() - 1) as usize;
        if d.last() == Some(pid) {
            assert(marcos_de(d, pid) =~= marcos_de(r, pid).insert(n));
            assert(!marcos_de(r, pid).contains(n));
        } else {
            assert(marcos_de(d, pid) =~= marcos_de(r, pid));
        }
    }
}

/// No call leaves a frame owned by a process outside the frames that the
/// process lists: a system that starts with all frames free keeps this at
/// every moment.
pub proof fn ley_marcos_completos(v: VistaProcesos, t: VistaTraza, s: SyscallV)
    requires
        valida(v),
        sin_huerfanos(v.procs, v.duenos),
        marcos_completos(v.procs, v.duenos),
    ensures
        marcos_completos(efecto(v, t, s).0.procs, efecto(v, t, s).0.duenos),
{
    let v1 = efecto(v, t, s).0;
    match s {
        SyscallV::CrearProceso { paginas, .. } => {
            if paginas <= libres(v.duenos).len() {
                let pid = v.sig_pid;
                let a = libres(v.duenos).take(paginas as int);
                assert forall|i: int, m: int|
                    0 <= i < v1.procs.len() && 0 <= m < v1.duenos.len() && #[trigger] v1.duenos[m] == Some(
                        (#[trigger] v1.procs[i]).pid,
                    ) implies v1.procs[i].marcos.contains(m as usize) by {
                    if i < v.procs.len() {
                        assert(v1.procs[i] == v.procs[i]);
                        assert(v.procs[i].pid < pid);
                        assert(!a.contains(m as usize));
                        assert(v.duenos[m] == v1.duenos[m]);
                    } else if !a.contains(m as usize) {
                        assert(v.duenos[m] == Some(pid));
                        let j = buscar(v.procs, pid)->0;
                        assert(v.procs[j].pid < pid);
                    }
                }
            }
        },
        SyscallV::Planificar => {
            let s0 = EstadoRR {
                procs: v.procs,
                listos: Seq::empty(),
                duenos: v.duenos,
                ram: v.ram,
                ciclos: v.ciclos as int,
                traza: t.anotar(seq![bajada(3, Op::EjecutarRonda)]),
            };
            assert forall|k: int| 0 <= k < v.listos.len() implies buscar(s0.procs, #[trigger] v.listos[k]) is Some by {
                assert(vivo(v.procs, v.listos[k]));
            }
            lema_ronda_completos(s0, v.listos, v.quantum);
        },
        SyscallV::Terminar { pid } => {
            if vivo(v.procs, pid) {
                let i0 = buscar(v.procs, pid)->0;
                assert forall|i: int, m: int|
                    0 <= i < v1.procs.len() && 0 <= m < v1.duenos.len() && #[trigger] v1.duenos[m] == Some(
                        (#[trigger] v1.procs[i]).pid,
                    ) implies v1.procs[i].marcos.contains(m as usize) by {
                    assert(i != i0);
                    assert(v1.procs[i] == v.procs[i]);
                    assert(v1.duenos[m] == v.duenos[m]);
                }
            }
        },
        _ => {
            assert(v1.procs == v.procs && v1.duenos == v.duenos);
        },
    }
}

/// The page count of each process is the number of frames it owns.
pub proof fn ley_paginas(v: VistaProcesos)
    requires
        valida(v),
        marcos_completos(v.procs, v.duenos),
    ensures
        forall|i: int| 0 <= i < v.procs.len() ==> (#[trigger] v.procs[i]).marcos.len() == cuenta_de(v.duenos, v.procs[i].pid),
{
    assert forall|i: int| 0 <= i < v.procs.len() implies (#[trigger] v.procs[i]).marcos.len() == cuenta_de(
        v.duenos,
        v.procs[i].pid,
    ) by {
        let p = v.procs[i];
        lema_cuenta_de_conjunto(v.duenos, p.pid);
        assert(p.marcos.to_set() =~= marcos_de(v.duenos, p.pid)) by {
            assert forall|m: usize| #[trigger] p.marcos.to_set().contains(m) implies marcos_de(v.duenos, p.pid).contains(m) by {
                let k = choose|k: int| 0 <= k < p.marcos.len() && p.marcos[k] == m;
            }
            assert forall|m: usize| #[trigger] marcos_de(v.duenos, p.pid).contains(m) implies p.marcos.to_set().contains(m) by {
                assert(v.duenos[m as int] == Some(v.procs[i].pid));
            }
        }
        p.marcos.unique_seq_to_set();
    }
}

/// Frames listed by all the processes of `s`.
pub open spec fn suma_paginas(s: Seq<ProcV>) -> nat
    decreases s.len(),
{
    if s.len() == 0 {
        0
    } else {
        suma_paginas(s.drop_last()) + s.last().marcos.len()
    }
}

/// The frames owned by one of the processes of `s`.
pub open spec fn marcos_de_todos(d: Seq<Option<Pid>>, s: Seq<ProcV>) -> Set<usize> {
    Set::new(|m: usize| (m as int) < d.len() && exists|i: int| 0 <= i < s.len() && d[m as int] == Some(#[trigger] s[i].pid))
}

/// The used frames.
pub open spec fn usados(d: Seq<Option<Pid>>) -> Set<usize> {
    Set::new(|m: usize| (m as int) < d.len() && d[m as int] is Some)
}

proof fn lema_cuenta_usados_conjunto(d: Seq<Option<Pid>>)
    requires
        d.len() <= usize::MAX,
    ensures
        usados(d).finite(),
        usados(d).len() == cuenta_usados(d),
    decreases d.len(),
{
    if d.len() == 0 {
        assert(usados(d) =~= Set::empty());
    } else {
        let r = d.drop_last();
        lema_cuenta_usados_conjunto(r);
        let n = (d.len() - 1) as usize;
        if d.last() is Some {
            assert(usados(d) =~= usados(r).insert(n));
            assert(!usados(r).contains(n));
        } else {
            assert(usados(d) =~= usados(r));
        }
    }
}

proof fn lema_suma_paginas(d: Seq<Option<Pid>>, s: Seq<ProcV>)
    requires
        d.len() <= usize::MAX,
        forall|a: int, b: int| 0 <= a < b < s.len() ==> s[a].pid < s[b].pid,
        forall|i: int| 0 <= i < s.len() ==> (#[trigger] s[i]).marcos.len() == cuenta_de(d, s[i].pid),
    ensures
        marcos_de_todos(d, s).finite(),
        marcos_de_todos(d, s).len() == suma_paginas(s),
    decreases s.len(),
{
    if s.len() == 0 {
        assert(marcos_de_todos(d, s) =~= Set::empty());
    } else {
        let r = s.drop_last();
        let p = s.last();
        assert forall|i: int| 0 <= i < r.len() implies (#[trigger] r[i]).marcos.len() == cuenta_de(d, r[i].pid) by {
            assert(r[i] == s[i]);
        }
        lema_suma_paginas(d, r);
        lema_cuenta_de_conjunto(d, p.pid);
        assert(p.marcos.len() == cuenta_de(d, p.pid)) by {
            assert(s[s.len() - 1] == p);
        }
        let a = marcos_de_todos(d, r);
        let b = marcos_de(d, p.pid);
        assert(marcos_de_todos(d, s) =~= a + b) by {
            assert forall|m: usize| #[trigger] marcos_de_todos(d, s).contains(m) implies (a + b).contains(m) by {
                let i = choose|i: int| 0 <= i < s.len() && d[m as int] == Some(#[trigger] s[i].pid);
                if i < r.len() {
                    assert(r[i] == s[i]);
                }
            }
            assert forall|m: usize| #[trigger] (a + b).contains(m) implies marcos_de_todos(d, s).contains(m) by {
                if a.contains(m) {
                    let i = choose|i: int| 0 <= i < r.len() && d[m as int] == Some(#[trigger] r[i].pid);
                    assert(r[i] == s[i]);
                } else {
                    assert(s[s.len() - 1].pid == p.pid);
                }
            }
        }
        assert(a.disjoint(b)) by {
            assert forall|m: usize| a.contains(m) implies !b.contains(m) by {
                let i = choose|i: int| 0 <= i < r.len() && d[m as int] == Some(#[trigger] r[i].pid);
                assert(r[i] == s[i]);
                assert(s[i].pid < s[s.len() - 1].pid);
            }
        }
        vstd::set_lib::lemma_set_disjoint_lens(a, b);
    }
}

/// The frames listed by all processes add up to the frames in use, when no
/// frame is owned by a pid that is not a process.
pub proof fn ley_paginas_suman_usados(v: VistaProcesos)
    requires
        valida(v),
        sin_huerfanos(v.procs, v.duenos),
        marcos_completos(v.procs, v.duenos),
    ensures
        suma_paginas(v.procs) == cuenta_usados(v.duenos),
{
    ley_paginas(v);
    lema_suma_paginas(v.duenos, v.procs);
    lema_cuenta_usados_conjunto(v.duenos);
    assert(marcos_de_todos(v.duenos, v.procs) =~= usados(v.duenos)) by {
        assert forall|m: usize| #[trigger] usados(v.duenos).contains(m) implies marcos_de_todos(v.duenos, v.procs).contains(m) by {
            assert(v.duenos[m as int] is Some);
            let i = buscar(v.procs, v.duenos[m as int]->0)->0;
            assert(v.procs[i].pid == v.duenos[m as int]->0);
        }
    }
}

/// The state below and the trace after `n` calls that each run a round of
/// Round Robin.
pub open spec fn tras_rondas(v: VistaProcesos, t: VistaTraza, n: nat) -> (VistaProcesos, VistaTraza)
    decreases n,
{
    if n == 0 {
        (v, t)
    } else {
        let (v1, _, t1) = efecto(v, t, SyscallV::Planificar);
        tras_rondas(v1, t1, (n - 1) as nat)
    }
}

proof fn lema_rr_termina(v: VistaProcesos, t: VistaTraza, n: nat)
    requires
        apta_rr(v.procs, v.listos),
        v.quantum >= 1,
        cabe_en(v.procs, v.quantum, n),
    ensures
        ({
            let (w, tw) = tras_rondas(v, t, n);
            &&& w.procs.len() == v.procs.len()
            &&& forall|i: int|
                0 <= i < w.procs.len() ==> (#[trigger] w.procs[i]).estado == Estado::Terminado
                    && w.procs[i].marcos.len() == 0
            &&& w.listos.len() == 0
            &&& efecto(w, tw, SyscallV::Planificar).1 == RetornoV::Ronda(Seq::empty())
            &&& sin_huerfanos(v.procs, v.duenos) && marcos_completos(v.procs, v.duenos) ==> cuenta_usados(w.duenos)
                == 0
        }),
    decreases n,
{
    if n == 0 {
        assert forall|i: int| 0 <= i < v.procs.len() implies (#[trigger] v.procs[i]).estado == Estado::Terminado by {
            if v.procs[i].estado == Estado::Listo {
                assert(rondas_pendientes(v.procs[i].total - v.procs[i].hechas, v.quantum) >= 1);
            }
        }
        if v.listos.len() > 0 {
            assert(vivo(v.procs, v.listos[0]));
            let i = buscar(v.procs, v.listos[0])->0;
            assert(v.procs[i].estado == Estado::Terminado);
        }
        if sin_huerfanos(v.procs, v.duenos) && marcos_completos(v.procs, v.duenos) {
            assert forall|m: int| 0 <= m < v.duenos.len() implies #[trigger] v.duenos[m] is None by {
                if v.duenos[m] is Some {
                    let i = buscar(v.procs, v.duenos[m]->0)->0;
                    assert(v.duenos[m] == Some(v.procs[i].pid));
                    assert(v.procs[i].marcos.contains(m as usize));
                }
            }
            lema_usados_ninguno(v.duenos);
        }
    } else {
        let t1 = t.anotar(seq![bajada(3, Op::EjecutarRonda)]);
        let s = EstadoRR {
            procs: v.procs,
            listos: v.listos,
            duenos: v.duenos,
            ram: v.ram,
            ciclos: v.ciclos as int,
            traza: t1,
        };
        let s0 = EstadoRR { listos: Seq::empty(), ..s };
        lema_ronda_acerca(s, v.quantum, n);
        if sin_huerfanos(v.procs, v.duenos) && marcos_completos(v.procs, v.duenos) {
            assert forall|k: int| 0 <= k < v.listos.len() implies buscar(s0.procs, #[trigger] v.listos[k]) is Some by {
                assert(vivo(v.procs, v.listos[k]));
            }
            lema_ronda_sin_huerfanos(s0, v.listos, v.quantum);
            lema_ronda_completos(s0, v.listos, v.quantum);
        }
        let (v1, _, tt1) = efecto(v, t, SyscallV::Planificar);
        lema_rr_termina(v1, tt1, (n - 1) as nat);
    }
}

/// Round Robin ends every process: with a quantum of at least one, where
/// every unfinished process needs at most `n` more rounds (one per quantum
/// of pending instructions, and at least one), after `n` rounds every
/// process has finished and lists no frame, the ready queue is empty and a
/// further round runs nobody; in a system that started with all frames
/// free, every frame is free again.
pub proof fn ley_round_robin_termina(v: VistaProcesos, t: VistaTraza, n: nat)
    requires
        valida(v),
        v.quantum >= 1,
        cabe_en(v.procs, v.quantum, n),
    ensures
        ({
            let (w, tw) = tras_rondas(v, t, n);
            &&& w.procs.len() == v.procs.len()
            &&& forall|i: int|
                0 <= i < w.procs.len() ==> (#[trigger] w.procs[i]).estado == Estado::Terminado
                    && w.procs[i].marcos.len() == 0
            &&& w.listos.len() == 0
            &&& efecto(w, tw, SyscallV::Planificar).1 == RetornoV::Ronda(Seq::empty())
            &&& sin_huerfanos(v.procs, v.duenos) && marcos_completos(v.procs, v.duenos) ==> cuenta_usados(w.duenos)
                == 0
        }),
{
    assert forall|i: int|
        0 <= i < v.procs.len() && (#[trigger] v.procs[i]).estado == Estado::Terminado implies v.procs[i].marcos.len()
        == 0 by {}
    lema_rr_termina(v, t, n);
}

pub struct InterfazSyscalls {
    procesos: GestorProcesos,
    atendidas: u64,
    traza: Traza,
}

impl InterfazSyscalls {
    /// State of the layers below.
    pub closed spec fn vista(&self) -> VistaProcesos {
        self.procesos.vista()
    }

    /// Calls served so far.
    pub closed spec fn servidas(&self) -> u64 {
        self.atendidas
    }

    /// Trace of the crossings between layers.
    pub closed spec fn traza_v(&self) -> VistaTraza {
        self.traza@
    }

    pub closed spec fn wf(&self) -> bool {
        self.procesos.wf()
    }

    /// The layers below are always in a valid state.
    pub proof fn lema_valida(&self)
        requires
            self.wf(),
        ensures
            valida(self.vista()),
    {
        self.procesos.lema_valida();
    }

    pub fn nuevo(procesos: GestorProcesos) -> (s: Self)
        requires
            procesos.wf(),
        ensures
            s.wf(),
            s.vista() == procesos.vista(),
            s.servidas() == 0,
            s.traza_v().recibidas == seq![0usize, 0, 0, 0, 0],
            s.traza_v().verboso,
            s.traza_v().pasos == Seq::<PasoV>::empty(),
    {
        InterfazSyscalls { procesos, atendidas: 0, traza: Traza::nueva() }
    }

    pub fn atendidas(&self) -> (n: u64)
        ensures
            n == self.servidas(),
    {
        self.atendidas
    }

    /// Counters and kept steps of the trace.
    pub fn traza(&self) -> (t: &Traza)
        ensures
            t@ == self.traza_v(),
    {
        &self.traza
    }

    pub fn set_verboso(&mut self, v: bool)
        ensures
            final(self).vista() == old(self).vista(),
            final(self).servidas() == old(self).servidas(),
            final(self).wf() == old(self).wf(),
            final(self).traza_v() == (VistaTraza { verboso: v, ..old(self).traza_v() }),
    {
        crate::traza::set_verboso(&mut self.traza, v);
    }

    /// Hands over the steps of the trace kept so far.
    pub fn tomar_pasos(&mut self) -> (r: Vec<Paso>)
        ensures
            final(self).vista() == old(self).vista(),
            final(self).servidas() == old(self).servidas(),
            final(self).wf() == old(self).wf(),
            r@.map_values(|p: Paso| p@) == old(self).traza_v().pasos,
            final(self).traza_v() == (VistaTraza { pasos: Seq::empty(), ..old(self).traza_v() }),
    {
        self.traza.tomar_pasos()
    }

    /// Records a call that the user layer makes to this one.
    pub fn anotar_llamada(&mut self, paso: Paso)
        requires
            paso.baja,
            paso.desde == 4,
        ensures
            final(self).vista() == old(self).vista(),
            final(self).servidas() == old(self).servidas(),
            final(self).wf() == old(self).wf(),
            final(self).traza_v() == old(self).traza_v().anotar(seq![paso@]),
    {
        self.traza.registrar(paso);
    }

    /// Whether the call `s` can be served (see [`admisible`]).
    pub fn admite(&self, s: &Syscall) -> (b: bool)
        requires
            self.wf(),
        ensures
            b == (self.servidas() < u64::MAX && admisible(self.vista(), s@)),
    {
        if self.atendidas == u64::MAX {
            return false;
        }
        match s {
            Syscall::CrearProceso { paginas, .. } => self.procesos.admite_creacion(*paginas),
            Syscall::Planificar => self.procesos.admite_ronda(),
            Syscall::LeerBloque { pid, .. } => self.procesos.admite_lectura(*pid),
            _ => true,
        }
    }

    fn traducir(e: ErrorProcesos, t: &mut Traza) -> (r: Retorno)
        ensures
            r@ == retorno_error(e),
            final(t)@ == old(t)@.anotar(seq![paso_error(e)]),
    {
        let r = match e {
            ErrorProcesos::SinMemoria(_) => Retorno::Error { codigo: ENOMEM, nombre: "ENOMEM" },
            ErrorProcesos::PidInexistente(_) => Retorno::Error { codigo: ESRCH, nombre: "ESRCH" },
            ErrorProcesos::Disco(_) => Retorno::Error { codigo: EIO, nombre: "EIO" },
        };
        match e {
            ErrorProcesos::SinMemoria(_) => subir(t, 3, Op::DevuelveError { codigo: ENOMEM, nombre: "ENOMEM" }),
            ErrorProcesos::PidInexistente(_) => subir(t, 3, Op::DevuelveError { codigo: ESRCH, nombre: "ESRCH" }),
            ErrorProcesos::Disco(_) => subir(t, 3, Op::DevuelveError { codigo: EIO, nombre: "EIO" }),
        }
        r
    }

    /// Serves one system call.
    pub fn llamar(&mut self, s: Syscall) -> (r: Retorno)
        requires
            old(self).wf(),
            old(self).servidas() < u64::MAX,
            admisible(old(self).vista(), s@),
        ensures
            final(self).wf(),
            final(self).servidas() == old(self).servidas() + 1,
            ({
                let (v1, r1, t1) = efecto(old(self).vista(), old(self).traza_v(), s@);
                &&& final(self).vista() == v1
                &&& r@ == r1
                &&& final(self).traza_v() == t1
            }),
    {
        self.atendidas = self.atendidas + 1;
        let ghost v0 = self.vista();
        let ghost t0 = self.traza@;
        let ghost sv = s@;
        match s {
            Syscall::CrearProceso { nombre, paginas, instrucciones } => {
                let p = Paso {
                    desde: 3,
                    baja: true,
                    op: Op::Crear { paginas, instrucciones },
                    marcos: Vec::new(),
                    texto: nombre.clone(),
                };
                let ghost pv = p@;
                self.traza.registrar(p);
                let ghost t1 = self.traza@;
                match self.procesos.crear(nombre.as_str(), paginas, instrucciones, &mut self.traza) {
                    Ok(pid) => {
                        let ghost t2 = self.traza@;
                        subir(&mut self.traza, 3, Op::DevuelvePid { pid });
                        proof {
                            let a = libres(v0.duenos).take(paginas as int);
                            let x = seq![bajada(2, Op::Reservar { pid, paginas })] + pasos_reserva(a) + seq![subida(2, Op::PcbCreado { pid })];
                            lema_anotar_concat(t1, x, seq![subida(3, Op::DevuelvePid { pid })]);
                            assert(x + seq![subida(3, Op::DevuelvePid { pid })] =~= seq![bajada(2, Op::Reservar { pid, paginas })] + pasos_reserva(a) + seq![
                                subida(2, Op::PcbCreado { pid }),
                                subida(3, Op::DevuelvePid { pid }),
                            ]);
                            assert(self.vista() =~= efecto(v0, t0, sv).0);
                        }
                        Retorno::Pid(pid)
                    },
                    Err(e) => {
                        let r = Self::traducir(e, &mut self.traza);
                        proof {
                            let em = ErrorMemoria::SinMarcos { pedidos: paginas, libres: libres(v0.duenos).len() as usize };
                            let x = seq![
                                bajada(2, Op::Reservar { pid: v0.sig_pid, paginas }),
                                subida(1, Op::FalloMemoria(em)),
                                subida(2, Op::FalloProcesos(e)),
                            ];
                            lema_anotar_concat(t1, x, seq![paso_error(e)]);
                            assert(x + seq![paso_error(e)] =~= seq![
                                bajada(2, Op::Reservar { pid: v0.sig_pid, paginas }),
                                subida(1, Op::FalloMemoria(em)),
                                subida(2, Op::FalloProcesos(e)),
                                paso_error(e),
                            ]);
                            assert(self.vista() =~= v0);
                        }
                        r
                    },
                }
            },
            Syscall::Planificar => {
                bajar(&mut self.traza, 3, Op::EjecutarRonda);
                let ev = self.procesos.ejecutar_ronda(&mut self.traza);
                proof {
                    assert(self.vista() =~= efecto(v0, t0, sv).0);
                }
                Retorno::Ronda(ev)
            },
            Syscall::LeerBloque { pid, bloque } => {
                bajar(&mut self.traza, 3, Op::LeerBloqueDe { pid, bloque });
                let ghost t1 = self.traza@;
                match self.procesos.leer_bloque(pid, bloque, &mut self.traza) {
                    Ok(d) => {
                        subir(&mut self.traza, 3, Op::DevuelveDatos);
                        proof {
                            let marco = v0.procs[buscar(v0.procs, pid)->0].marcos[0];
                            let x = seq![bajada(2, Op::CargarBloque { bloque, marco })] + pasos_carga(bloque, marco, Some(v0.disco[bloque as int])) + seq![subida(2, Op::DatosLeidos)];
                            lema_anotar_concat(t1, x, seq![subida(3, Op::DevuelveDatos)]);
                            assert(x + seq![subida(3, Op::DevuelveDatos)] =~= seq![bajada(2, Op::CargarBloque { bloque, marco })] + pasos_carga(bloque, marco, Some(v0.disco[bloque as int])) + seq![subida(2, Op::DatosLeidos), subida(3, Op::DevuelveDatos)]);
                            assert(self.vista() =~= efecto(v0, t0, sv).0);
                        }
                        Retorno::Datos(d)
                    },
                    Err(e) => {
                        let r = Self::traducir(e, &mut self.traza);
                        proof {
                            if vivo(v0.procs, pid) {
                                let marco = v0.procs[buscar(v0.procs, pid)->0].marcos[0];
                                let x = seq![bajada(2, Op::CargarBloque { bloque, marco })] + pasos_carga(bloque, marco, None) + seq![subida(2, Op::FalloProcesos(e))];
                                lema_anotar_concat(t1, x, seq![paso_error(e)]);
                                assert(x + seq![paso_error(e)] =~= seq![bajada(2, Op::CargarBloque { bloque, marco })] + pasos_carga(bloque, marco, None) + seq![subida(2, Op::FalloProcesos(e)), paso_error(e)]);
                            } else {
                                lema_anotar_concat(t1, seq![subida(2, Op::FalloProcesos(e))], seq![paso_error(e)]);
                                assert(seq![subida(2, Op::FalloProcesos(e))] + seq![paso_error(e)] =~= seq![subida(2, Op::FalloProcesos(e)), paso_error(e)]);
                            }
                            assert(self.vista() =~= efecto(v0, t0, sv).0);
                        }
                        r
                    },
                }
            },
            Syscall::Terminar { pid } => {
                bajar(&mut self.traza, 3, Op::Terminar { pid });
                let ghost t1 = self.traza@;
                match self.procesos.terminar(pid, &mut self.traza) {
                    Ok(n) => {
                        subir(&mut self.traza, 3, Op::DevuelveCero);
                        proof {
                            let x = seq![
                                bajada(2, Op::Liberar { pid }),
                                subida(1, Op::MarcosLibresDeNuevo { n }),
                                subida(2, Op::MarcosLiberados { n }),
                            ];
                            lema_anotar_concat(t1, x, seq![subida(3, Op::DevuelveCero)]);
                            assert(x + seq![subida(3, Op::DevuelveCero)] =~= seq![
                                bajada(2, Op::Liberar { pid }),
                                subida(1, Op::MarcosLibresDeNuevo { n }),
                                subida(2, Op::MarcosLiberados { n }),
                                subida(3, Op::DevuelveCero),
                            ]);
                            assert(self.vista() =~= efecto(v0, t0, sv).0);
                        }
                        Retorno::Liberados(n)
                    },
                    Err(e) => {
                        let r = Self::traducir(e, &mut self.traza);
                        proof {
                            assert(self.vista() =~= v0);
                        }
                        r
                    },
                }
            },
            Syscall::ListarProcesos => {
                bajar(&mut self.traza, 3, Op::Listar);
                let ghost t1 = self.traza@;
                let lista = self.procesos.listar(&mut self.traza);
                let ghost t2 = self.traza@;
                subir(&mut self.traza, 3, Op::DevuelveLista);
                proof {
                    let n = v0.procs.len() as usize;
                    lema_anotar_concat(t0, seq![bajada(3, Op::Listar)], seq![subida(2, Op::CopiaPcbs { n })]);
                    lema_anotar_concat(t0, seq![bajada(3, Op::Listar)] + seq![subida(2, Op::CopiaPcbs { n })], seq![subida(3, Op::DevuelveLista)]);
                    assert(seq![bajada(3, Op::Listar)] + seq![subida(2, Op::CopiaPcbs { n })] + seq![subida(3, Op::DevuelveLista)] =~= seq![
                        bajada(3, Op::Listar),
                        subida(2, Op::CopiaPcbs { n }),
                        subida(3, Op::DevuelveLista),
                    ]);
                }
                Retorno::Procesos(lista)
            },
            Syscall::UsoMemoria => {
                bajar(&mut self.traza, 3, Op::UsoMemoria);
                let (usados, total, mapa) = self.procesos.uso_memoria(&mut self.traza);
                subir(&mut self.traza, 2, Op::UsoConMapa);
                subir(&mut self.traza, 3, Op::DevuelveUso);
                proof {
                    let a1 = seq![bajada(3, Op::UsoMemoria)];
                    let a2 = seq![bajada(2, Op::PedirUso), subida(1, Op::UsoMarcos { usados, total })];
                    let a3 = seq![subida(2, Op::UsoConMapa)];
                    let a4 = seq![subida(3, Op::DevuelveUso)];
                    lema_anotar_concat(t0, a1, a2);
                    lema_anotar_concat(t0, a1 + a2, a3);
                    lema_anotar_concat(t0, a1 + a2 + a3, a4);
                    assert(a1 + a2 + a3 + a4 =~= seq![
                        bajada(3, Op::UsoMemoria),
                        bajada(2, Op::PedirUso),
                        subida(1, Op::UsoMarcos { usados, total }),
                        subida(2, Op::UsoConMapa),
                        subida(3, Op::DevuelveUso),
                    ]);
                }
                Retorno::Memoria { usados, total, mapa }
            },
            Syscall::Reloj => {
                bajar(&mut self.traza, 3, Op::Reloj);
                let c = self.procesos.reloj(&mut self.traza);
                proof {
                    lema_anotar_concat(t0, seq![bajada(3, Op::Reloj)], seq![bajada(2, Op::Reloj), bajada(1, Op::Reloj)]);
                    assert(seq![bajada(3, Op::Reloj)] + seq![bajada(2, Op::Reloj), bajada(1, Op::Reloj)] =~= seq![
                        bajada(3, Op::Reloj),
                        bajada(2, Op::Reloj),
                        bajada(1, Op::Reloj),
                    ]);
                }
                Retorno::Reloj(c)
            },
        }
    }
}

} // verus!
