//! Layer 4: user programs (a small shell).
//!
//! It only knows the system calls of layer 3. It does not know that control
//! blocks, frames or disks exist: it gets numbers and texts. Showing what it
//! gets is left to whoever drives it.
use vstd::prelude::*;

use crate::capa2_procesos::{vista_eventos, EventoCpu, EventoV, VistaProcesos};
use crate::capa3_syscalls::{admisible, efecto, InterfazSyscalls, Retorno, RetornoV, Syscall, SyscallV};
use crate::traza::{Op, Paso, PasoV, Traza, VistaTraza};

verus! {

pub struct Shell {
    so: InterfazSyscalls,
}

/// The step that records the call `s` from the user layer.
pub open spec fn paso_syscall(s: SyscallV) -> PasoV {
    let (op, texto) = match s {
        SyscallV::CrearProceso { nombre, paginas, instrucciones } => (
            Op::SyscallCrear { paginas, instrucciones },
            nombre,
        ),
        SyscallV::Planificar => (Op::SyscallPlanificar, Seq::empty()),
        SyscallV::LeerBloque { pid, bloque } => (Op::SyscallLeerBloque { pid, bloque }, Seq::empty()),
        SyscallV::Terminar { pid } => (Op::SyscallTerminar { pid }, Seq::empty()),
        SyscallV::ListarProcesos => (Op::SyscallListar, Seq::empty()),
        SyscallV::UsoMemoria => (Op::SyscallUso, Seq::empty()),
        SyscallV::Reloj => (Op::SyscallReloj, Seq::empty()),
    };
    PasoV { desde: 4, baja: true, op, marcos: Seq::empty(), texto }
}

/// Asking for the clock, when the counter of calls leaves room for it:
/// the clock, the state, the trace and the calls served afterwards.
pub open spec fn pedir_reloj(v: VistaProcesos, t: VistaTraza, n: u64) -> (Option<u64>, VistaProcesos, VistaTraza, u64) {
    if n < u64::MAX {
        let (v1, r, t1) = efecto(v, t.anotar(seq![paso_syscall(SyscallV::Reloj)]), SyscallV::Reloj);
        (Some(r->Reloj_0), v1, t1, (n + 1) as u64)
    } else {
        (None, v, t, n)
    }
}

/// `ejecutar` with at most `k` rounds left: the rounds it shows (each a
/// non-empty one), the clock it reads at the end (`None` when a call could
/// not be served), whether it stopped at an empty round, and the state,
/// trace and calls served afterwards.
pub open spec fn ejecutar_v(v: VistaProcesos, t: VistaTraza, n: u64, k: nat) -> (
    Seq<Seq<EventoV>>,
    Option<u64>,
    bool,
    VistaProcesos,
    VistaTraza,
    u64,
)
    decreases k,
{
    if k == 0 {
        let (c, v1, t1, n1) = pedir_reloj(v, t, n);
        (Seq::empty(), c, false, v1, t1, n1)
    } else if !(n < u64::MAX && admisible(v, SyscallV::Planificar)) {
        (Seq::empty(), None, false, v, t, n)
    } else {
        let (v1, r, t1) = efecto(v, t.anotar(seq![paso_syscall(SyscallV::Planificar)]), SyscallV::Planificar);
        let ev = r->Ronda_0;
        if ev.len() == 0 {
            let (c, v2, t2, n2) = pedir_reloj(v1, t1, (n + 1) as u64);
            (Seq::empty(), c, true, v2, t2, n2)
        } else {
            let (rs, c, vacia, v2, t2, n2) = ejecutar_v(v1, t1, (n + 1) as u64, (k - 1) as nat);
            (seq![ev] + rs, c, vacia, v2, t2, n2)
        }
    }
}

/// The rounds as values.
pub open spec fn vista_rondas(s: Seq<Vec<EventoCpu>>) -> Seq<Seq<EventoV>> {
    s.map_values(|x: Vec<EventoCpu>| vista_eventos(x@))
}

/// `ejecutar` shows at most `k` rounds, none of them empty; it stops only
/// after `k` rounds, at an empty round or when a call cannot be served
/// (then it has no clock); the clock it gives is the clock afterwards; and
/// each call it makes is one more call served: one per round shown, one
/// for the empty round it stopped at, one for the clock.
pub proof fn ley_ejecutar(v: VistaProcesos, t: VistaTraza, n: u64, k: nat)
    ensures
        ({
            let (rs, c, vacia, v1, _, n1) = ejecutar_v(v, t, n, k);
            &&& rs.len() <= k
            &&& rs.len() == k || vacia || c is None
            &&& (c matches Some(x) ==> x == v1.ciclos)
            &&& forall|i: int| 0 <= i < rs.len() ==> (#[trigger] rs[i]).len() > 0
            &&& n1 == n + rs.len() + (if vacia {
                1int
            } else {
                0int
            }) + (if c is Some {
                1int
            } else {
                0int
            })
        }),
    decreases k,
{
    if k > 0 && n < u64::MAX && admisible(v, SyscallV::Planificar) {
        let (v1, r, t1) = efecto(v, t.anotar(seq![paso_syscall(SyscallV::Planificar)]), SyscallV::Planificar);
        let ev = r->Ronda_0;
        if ev.len() > 0 {
            ley_ejecutar(v1, t1, (n + 1) as u64, (k - 1) as nat);
            let rs1 = ejecutar_v(v1, t1, (n + 1) as u64, (k - 1) as nat).0;
            assert forall|i: int| 0 <= i < (seq![ev] + rs1).len() implies (#[trigger] (seq![ev] + rs1)[i]).len() > 0 by {
                if i > 0 {
                    assert((seq![ev] + rs1)[i] == rs1[i - 1]);
                }
            }
        }
    }
}

impl Shell {
    pub closed spec fn vista(&self) -> VistaProcesos {
        self.so.vista()
    }

    pub closed spec fn servidas(&self) -> u64 {
        self.so.servidas()
    }

    pub closed spec fn traza_v(&self) -> VistaTraza {
        self.so.traza_v()
    }

    pub closed spec fn wf(&self) -> bool {
        self.so.wf()
    }

    pub fn nuevo(so: InterfazSyscalls) -> (sh: Self)
        requires
            so.wf(),
        ensures
            sh.wf(),
            sh.vista() == so.vista(),
            sh.servidas() == so.servidas(),
            sh.traza_v() == so.traza_v(),
    {
        Shell { so }
    }

    /// Whether the call `s` can be served.
    pub fn admite(&self, s: &Syscall) -> (b: bool)
        requires
            self.wf(),
        ensures
            b == (self.servidas() < u64::MAX && admisible(self.vista(), s@)),
    {
        self.so.admite(s)
    }

    /// Makes a system call: the only way down from this layer.
    pub fn syscall(&mut self, s: Syscall) -> (r: Retorno)
        requires
            old(self).wf(),
            old(self).servidas() < u64::MAX,
            admisible(old(self).vista(), s@),
        ensures
            final(self).wf(),
            final(self).servidas() == old(self).servidas() + 1,
            ({
                let (v1, r1, t1) = efecto(
                    old(self).vista(),
                    old(self).traza_v().anotar(seq![paso_syscall(s@)]),
                    s@,
                );
                &&& final(self).vista() == v1
                &&& r@ == r1
                &&& final(self).traza_v() == t1
            }),
    {
        let paso = match &s {
            Syscall::CrearProceso { nombre, paginas, instrucciones } => Paso {
                desde: 4,
                baja: true,
                op: Op::SyscallCrear { paginas: *paginas, instrucciones: *instrucciones },
                marcos: Vec::new(),
                texto: nombre.clone(),
            },
            Syscall::Planificar => Paso {
                desde: 4,
                baja: true,
                op: Op::SyscallPlanificar,
                marcos: Vec::new(),
                texto: String::new(),
            },
            Syscall::LeerBloque { pid, bloque } => Paso {
                desde: 4,
                baja: true,
                op: Op::SyscallLeerBloque { pid: *pid, bloque: *bloque },
                marcos: Vec::new(),
                texto: String::new(),
            },
            Syscall::Terminar { pid } => Paso {
                desde: 4,
                baja: true,
                op: Op::SyscallTerminar { pid: *pid },
                marcos: Vec::new(),
                texto: String::new(),
            },
            Syscall::ListarProcesos => Paso {
                desde: 4,
                baja: true,
                op: Op::SyscallListar,
                marcos: Vec::new(),
                texto: String::new(),
            },
            Syscall::UsoMemoria => Paso {
                desde: 4,
                baja: true,
                op: Op::SyscallUso,
                marcos: Vec::new(),
                texto: String::new(),
            },
            Syscall::Reloj => Paso {
                desde: 4,
                baja: true,
                op: Op::SyscallReloj,
                marcos: Vec::new(),
                texto: String::new(),
            },
        };
        proof {
            assert(paso@ == paso_syscall(s@));
        }
        self.so.anotar_llamada(paso);
        self.so.llamar(s)
    }

    /// The rounds and the clock of `ejecutar`, as `ejecutar_v` gives them.
    #[verifier::rlimit(60)]
    #[verifier::spinoff_prover]
    fn correr(&mut self, max_rondas: usize) -> (r: (Vec<Vec<EventoCpu>>, Option<u64>))
        requires
            old(self).wf(),
        ensures
            final(self).wf(),
            ({
                let (rs, c, _, v1, t1, n1) = ejecutar_v(
                    old(self).vista(),
                    old(self).traza_v(),
                    old(self).servidas(),
                    max_rondas as nat,
                );
                &&& vista_rondas(r.0@) == rs
                &&& r.1 == c
                &&& final(self).vista() == v1
                &&& final(self).traza_v() == t1
                &&& final(self).servidas() == n1
            }),
    {
        let ghost v0 = self.vista();
        let ghost t0 = self.traza_v();
        let ghost n0 = self.servidas();
        let ghost total = ejecutar_v(v0, t0, n0, max_rondas as nat);
        let mut rondas: Vec<Vec<EventoCpu>> = Vec::new();
        let mut i: usize = 0;
        let mut vacia = false;
        proof {
            assert(vista_rondas(rondas@) + total.0 =~= total.0);
        }
        while i < max_rondas && !vacia
            invariant
                i <= max_rondas,
                self.wf(),
                total == ejecutar_v(v0, t0, n0, max_rondas as nat),
                v0 == old(self).vista(),
                t0 == old(self).traza_v(),
                n0 == old(self).servidas(),
                ({
                    let x = ejecutar_v(
                        self.vista(),
                        self.traza_v(),
                        self.servidas(),
                        if vacia {
                            0nat
                        } else {
                            (max_rondas - i) as nat
                        },
                    );
                    &&& total.0 == vista_rondas(rondas@) + x.0
                    &&& total.1 == x.1
                    &&& total.3 == x.3
                    &&& total.4 == x.4
                    &&& total.5 == x.5
                }),
            decreases max_rondas - i, if vacia { 0int } else { 1int },
        {
            let ghost v = self.vista();
            let ghost t = self.traza_v();
            let ghost n = self.servidas();
            let ghost k = (max_rondas - i) as nat;
            let s = Syscall::Planificar;
            if !self.admite(&s) {
                proof {
                    assert(s@ == SyscallV::Planificar);
                    assert(!(n < u64::MAX && admisible(v, SyscallV::Planificar)));
                    assert(k > 0);
                    assert(ejecutar_v(v, t, n, k) == (Seq::<Seq<EventoV>>::empty(), None::<u64>, false, v, t, n));
                    assert(vista_rondas(rondas@) + Seq::<Seq<EventoV>>::empty() =~= vista_rondas(rondas@));
                }
                return (rondas, None);
            }
            let r = self.syscall(s);
            let ev = match r {
                Retorno::Ronda(e) => e,
                _ => {
                    return (rondas, None);
                },
            };
            let ghost antes = rondas@;
            if ev.len() == 0 {
                vacia = true;
                proof {
                    assert(vista_eventos(ev@).len() == 0);
                }
            } else {
                rondas.push(ev);
                i = i + 1;
                proof {
                    let x1 = ejecutar_v(self.vista(), self.traza_v(), self.servidas(), (k - 1) as nat);
                    assert(vista_rondas(rondas@) =~= vista_rondas(antes).push(vista_eventos(ev@)));
                    assert(vista_rondas(antes) + (seq![vista_eventos(ev@)] + x1.0) =~= vista_rondas(rondas@) + x1.0);
                }
            }
        }
        proof {
            assert(vista_rondas(rondas@) + Seq::<Seq<EventoV>>::empty() =~= vista_rondas(rondas@));
        }
        let s = Syscall::Reloj;
        if !self.admite(&s) {
            return (rondas, None);
        }
        match self.syscall(s) {
            Retorno::Reloj(c) => (rondas, Some(c)),
            _ => (rondas, None),
        }
    }

    /// Rounds of Round Robin until no process is ready, or `max_rondas`
    /// of them, then the clock of the CPU. Gives the rounds that ran, and
    /// the clock; stops without the clock when a call cannot be served.
    pub fn ejecutar(&mut self, max_rondas: usize) -> (r: (Vec<Vec<EventoCpu>>, Option<u64>))
        requires
            old(self).wf(),
        ensures
            final(self).wf(),
            ({
                let (rs, c, vacia, v1, t1, n1) = ejecutar_v(
                    old(self).vista(),
                    old(self).traza_v(),
                    old(self).servidas(),
                    max_rondas as nat,
                );
                &&& vista_rondas(r.0@) == rs
                &&& r.1 == c
                &&& final(self).vista() == v1
                &&& final(self).traza_v() == t1
                &&& final(self).servidas() == n1
                &&& r.0@.len() <= max_rondas
                &&& r.0@.len() == max_rondas || vacia || r.1 is None
                &&& (r.1 matches Some(x) ==> x == final(self).vista().ciclos)
                &&& forall|i: int| 0 <= i < r.0@.len() ==> (#[trigger] r.0@[i])@.len() > 0
                &&& final(self).servidas() == old(self).servidas() + r.0@.len() + (if vacia {
                    1int
                } else {
                    0int
                }) + (if r.1 is Some {
                    1int
                } else {
                    0int
                })
            }),
    {
        proof {
            ley_ejecutar(self.vista(), self.traza_v(), self.servidas(), max_rondas as nat);
        }
        let r = self.correr(max_rondas);
        proof {
            let rs = vista_rondas(r.0@);
            assert(rs.len() == r.0@.len());
            assert forall|i: int| 0 <= i < r.0@.len() implies (#[trigger] r.0@[i])@.len() > 0 by {
                assert(rs[i] == vista_eventos(r.0@[i]@));
                assert(rs[i].len() > 0);
            }
        }
        r
    }

    pub fn syscalls_atendidas(&self) -> (n: u64)
        ensures
            n == self.servidas(),
    {
        self.so.atendidas()
    }

    /// Counters and kept steps of the trace of the whole stack.
    pub fn traza(&self) -> (t: &Traza)
        ensures
            t@ == self.traza_v(),
    {
        self.so.traza()
    }

    /// Turns the keeping of trace steps on or off.
    pub fn set_verboso(&mut self, v: bool)
        ensures
            final(self).vista() == old(self).vista(),
            final(self).servidas() == old(self).servidas(),
            final(self).wf() == old(self).wf(),
            final(self).traza_v() == (VistaTraza { verboso: v, ..old(self).traza_v() }),
    {
        self.so.set_verboso(v);
    }

    /// Hands over the trace steps kept so far.
    pub fn tomar_pasos(&mut self) -> (r: Vec<Paso>)
        ensures
            final(self).vista() == old(self).vista(),
            final(self).servidas() == old(self).servidas(),
            final(self).wf() == old(self).wf(),
            r@.map_values(|p: Paso| p@) == old(self).traza_v().pasos,
            final(self).traza_v() == (VistaTraza { pasos: Seq::empty(), ..old(self).traza_v() }),
    {
        self.so.tomar_pasos()
    }
}

/// The pid that a call to create a process got back, if it got one.
pub fn pid_creado(r: &Retorno) -> (p: Option<crate::capa1_memoria::Pid>)
    ensures
        p == match r@ {
            RetornoV::Pid(pid) => Some(pid),
            _ => None,
        },
{
    match r {
        Retorno::Pid(pid) => Some(*pid),
        _ => None,
    }
}

} // verus!
