use arquitecturas_so::capa0_hardware::Hardware;
use arquitecturas_so::capa1_memoria::{ErrorMemoria, GestorMemoria};
use arquitecturas_so::capa2_procesos::{ErrorProcesos, GestorProcesos};
use arquitecturas_so::capa3_syscalls::{InterfazSyscalls, Retorno, Syscall, EIO, ENOMEM, ESRCH};
use arquitecturas_so::capa4_usuario::Shell;
use arquitecturas_so::traza::{recibidas, total_cruces, Traza};

fn so(marcos: usize) -> InterfazSyscalls {
    let c0 = Hardware::nuevo(marcos, vec!["bloque0".into()]);
    InterfazSyscalls::nuevo(GestorProcesos::nuevo(GestorMemoria::nuevo(c0), 2))
}

#[test]
fn el_error_de_memoria_llega_como_enomem() {
    let mut s = so(4);
    let r = s.llamar(Syscall::CrearProceso { nombre: "grande".into(), paginas: 5, instrucciones: 1 });
    assert!(matches!(r, Retorno::Error { codigo: ENOMEM, .. }));
}

#[test]
fn un_pid_invalido_no_llega_al_hardware() {
    let mut s = so(4);
    let r = s.llamar(Syscall::LeerBloque { pid: 42, bloque: 0 });
    assert!(matches!(r, Retorno::Error { codigo: ESRCH, .. }));
}

#[test]
fn round_robin_termina_y_libera_memoria() {
    let mut s = so(8);
    s.llamar(Syscall::CrearProceso { nombre: "a".into(), paginas: 4, instrucciones: 3 });
    s.llamar(Syscall::CrearProceso { nombre: "b".into(), paginas: 4, instrucciones: 5 });
    for _ in 0..5 {
        s.llamar(Syscall::Planificar);
    }
    match s.llamar(Syscall::UsoMemoria) {
        Retorno::Memoria { usados, .. } => assert_eq!(usados, 0),
        _ => panic!("retorno inesperado"),
    }
}

fn crear(s: &mut InterfazSyscalls, nombre: &str, paginas: usize, instrucciones: u32) -> Retorno {
    s.llamar(Syscall::CrearProceso { nombre: nombre.into(), paginas, instrucciones })
}

fn usados(s: &mut InterfazSyscalls) -> (usize, usize, Vec<Option<u32>>) {
    match s.llamar(Syscall::UsoMemoria) {
        Retorno::Memoria { usados, total, mapa } => (usados, total, mapa),
        otro => panic!("retorno inesperado: {:?}", otro),
    }
}

#[test]
fn crear_reserva_los_marcos_pedidos() {
    let mut s = so(8);
    assert!(matches!(crear(&mut s, "a", 3, 1), Retorno::Pid(1)));
    assert!(matches!(crear(&mut s, "b", 2, 1), Retorno::Pid(2)));
    let (u, t, mapa) = usados(&mut s);
    assert_eq!((u, t), (5, 8));
    assert_eq!(mapa, vec![Some(1), Some(1), Some(1), Some(2), Some(2), None, None, None]);
}

#[test]
fn terminar_libera_exactamente_sus_marcos() {
    let mut s = so(8);
    crear(&mut s, "a", 3, 10);
    crear(&mut s, "b", 2, 10);
    assert!(matches!(s.llamar(Syscall::Terminar { pid: 1 }), Retorno::Liberados(3)));
    let (u, _, mapa) = usados(&mut s);
    assert_eq!(u, 2);
    assert_eq!(mapa, vec![None, None, None, Some(2), Some(2), None, None, None]);
    assert!(matches!(s.llamar(Syscall::Terminar { pid: 1 }), Retorno::Error { codigo: ESRCH, nombre: "ESRCH" }));
}

#[test]
fn un_bloque_que_no_existe_da_eio() {
    let mut s = so(4);
    crear(&mut s, "a", 1, 1);
    assert!(matches!(s.llamar(Syscall::LeerBloque { pid: 1, bloque: 5 }), Retorno::Error { codigo: EIO, nombre: "EIO" }));
    match s.llamar(Syscall::LeerBloque { pid: 1, bloque: 0 }) {
        Retorno::Datos(d) => assert_eq!(d, "bloque0"),
        otro => panic!("retorno inesperado: {:?}", otro),
    }
}

#[test]
fn el_pid_invalido_no_cruza_a_memoria_ni_hardware() {
    let mut s = so(4);
    let antes = recibidas(s.traza());
    s.llamar(Syscall::LeerBloque { pid: 42, bloque: 0 });
    let despues = recibidas(s.traza());
    assert_eq!(despues[0], antes[0]);
    assert_eq!(despues[1], antes[1]);
    assert_eq!(despues[2], antes[2] + 1);
}

#[test]
fn sin_memoria_nada_cambia() {
    let mut s = so(4);
    crear(&mut s, "a", 3, 1);
    assert!(matches!(crear(&mut s, "b", 2, 1), Retorno::Error { codigo: ENOMEM, nombre: "ENOMEM" }));
    assert_eq!(usados(&mut s).0, 3);
    assert!(matches!(crear(&mut s, "c", 1, 1), Retorno::Pid(2)));
}

#[test]
fn round_robin_en_orden_y_con_quantum() {
    let mut s = so(8);
    crear(&mut s, "a", 4, 3);
    crear(&mut s, "b", 4, 5);
    let rondas: Vec<Vec<(u32, u32, bool, usize)>> = (0..3)
        .map(|_| match s.llamar(Syscall::Planificar) {
            Retorno::Ronda(ev) => ev.iter().map(|e| (e.pid, e.ejecutadas, e.termino, e.marcos_liberados)).collect(),
            otro => panic!("retorno inesperado: {:?}", otro),
        })
        .collect();
    assert_eq!(rondas[0], vec![(1, 2, false, 0), (2, 2, false, 0)]);
    assert_eq!(rondas[1], vec![(1, 1, true, 4), (2, 2, false, 0)]);
    assert_eq!(rondas[2], vec![(2, 1, true, 4)]);
    assert!(matches!(s.llamar(Syscall::Reloj), Retorno::Reloj(8)));
    assert_eq!(usados(&mut s).0, 0);
}

#[test]
fn listar_procesos() {
    let mut s = so(8);
    crear(&mut s, "a", 2, 3);
    s.llamar(Syscall::Planificar);
    match s.llamar(Syscall::ListarProcesos) {
        Retorno::Procesos(l) => {
            assert_eq!(l.len(), 1);
            assert_eq!((l[0].pid, l[0].nombre.as_str(), l[0].paginas, l[0].hechas, l[0].total), (1, "a", 2, 2, 3));
        },
        otro => panic!("retorno inesperado: {:?}", otro),
    }
}

#[test]
fn una_lectura_cruza_todas_las_capas() {
    let c0 = Hardware::nuevo(4, vec!["boot".into(), "datos".into()]);
    let so = InterfazSyscalls::nuevo(GestorProcesos::nuevo(GestorMemoria::nuevo(c0), 2));
    let mut shell = Shell::nuevo(so);
    shell.syscall(Syscall::CrearProceso { nombre: "a".into(), paginas: 1, instrucciones: 1 });
    let antes = total_cruces(shell.traza());
    let previas = recibidas(shell.traza());
    match shell.syscall(Syscall::LeerBloque { pid: 1, bloque: 1 }) {
        Retorno::Datos(d) => assert_eq!(d, "datos"),
        otro => panic!("retorno inesperado: {:?}", otro),
    }
    assert_eq!(total_cruces(shell.traza()) - antes, 5);
    let r = recibidas(shell.traza());
    let nuevas: Vec<usize> = (0..5).map(|i| r[i] - previas[i]).collect();
    assert_eq!(nuevas, vec![2, 1, 1, 1, 0]);
    assert_eq!(shell.syscalls_atendidas(), 2);
    let pasos = shell.tomar_pasos();
    assert_eq!(pasos.first().map(|p| (p.desde, p.baja)), Some((4, true)));
}

#[test]
fn memoria_dada_antes_de_los_procesos() {
    let mut t = Traza::nueva();
    let mut mem = GestorMemoria::nuevo(Hardware::nuevo(4, vec![]));
    assert_eq!(mem.reservar(1, 1, &mut t).unwrap(), vec![0]);
    let mut s = InterfazSyscalls::nuevo(GestorProcesos::nuevo(mem, 2));
    assert!(matches!(crear(&mut s, "a", 1, 1), Retorno::Pid(1)));
    let (_, _, mapa) = usados(&mut s);
    assert_eq!(mapa, vec![Some(1), Some(1), None, None]);
    assert!(matches!(s.llamar(Syscall::Terminar { pid: 1 }), Retorno::Liberados(2)));
    assert_eq!(usados(&mut s).0, 0);
}

#[test]
fn los_errores_de_las_capas_como_texto() {
    let m = ErrorMemoria::SinMarcos { pedidos: 6, libres: 4 };
    assert_eq!(m.texto(), "SinMarcos(pedidos 6, libres 4)");
    assert_eq!(ErrorMemoria::BloqueInexistente(12).texto(), "BloqueInexistente(12)");
    assert_eq!(ErrorProcesos::SinMemoria(m).texto(), "SinMemoria <- SinMarcos(pedidos 6, libres 4)");
    assert_eq!(ErrorProcesos::PidInexistente(99).texto(), "PidInexistente(99)");
    assert_eq!(
        ErrorProcesos::Disco(ErrorMemoria::BloqueInexistente(5)).texto(),
        "Disco <- BloqueInexistente(5)"
    );
}

#[test]
fn ejecutar_hasta_que_no_quedan_listos() {
    let c0 = Hardware::nuevo(8, vec![]);
    let mut shell = Shell::nuevo(InterfazSyscalls::nuevo(GestorProcesos::nuevo(GestorMemoria::nuevo(c0), 2)));
    shell.syscall(Syscall::CrearProceso { nombre: "a".into(), paginas: 4, instrucciones: 3 });
    shell.syscall(Syscall::CrearProceso { nombre: "b".into(), paginas: 4, instrucciones: 5 });
    let antes = shell.syscalls_atendidas();
    let (rondas, reloj) = shell.ejecutar(10);
    let resumen: Vec<Vec<(u32, u32, bool)>> =
        rondas.iter().map(|r| r.iter().map(|e| (e.pid, e.ejecutadas, e.termino)).collect()).collect();
    assert_eq!(
        resumen,
        vec![
            vec![(1, 2, false), (2, 2, false)],
            vec![(1, 1, true), (2, 2, false)],
            vec![(2, 1, true)],
        ]
    );
    assert_eq!(reloj, Some(8));
    // three rounds shown, one empty round that stops the loop, one clock call
    assert_eq!(shell.syscalls_atendidas() - antes, 5);
}

#[test]
fn ejecutar_con_tope_de_rondas() {
    let c0 = Hardware::nuevo(8, vec![]);
    let mut shell = Shell::nuevo(InterfazSyscalls::nuevo(GestorProcesos::nuevo(GestorMemoria::nuevo(c0), 2)));
    shell.syscall(Syscall::CrearProceso { nombre: "a".into(), paginas: 1, instrucciones: 9 });
    let antes = shell.syscalls_atendidas();
    let (rondas, reloj) = shell.ejecutar(2);
    assert_eq!(rondas.len(), 2);
    assert_eq!(reloj, Some(4));
    assert_eq!(shell.syscalls_atendidas() - antes, 3);
    let (rondas, reloj) = shell.ejecutar(0);
    assert!(rondas.is_empty());
    assert_eq!(reloj, Some(4));
}

#[test]
fn ejecutar_se_detiene_si_la_ronda_no_se_puede_atender() {
    let c0 = Hardware::nuevo(8, vec![]);
    let mut shell = Shell::nuevo(InterfazSyscalls::nuevo(GestorProcesos::nuevo(GestorMemoria::nuevo(c0), 2)));
    shell.syscall(Syscall::CrearProceso { nombre: "sin_marcos".into(), paginas: 0, instrucciones: 3 });
    let antes = shell.syscalls_atendidas();
    let (rondas, reloj) = shell.ejecutar(5);
    assert!(rondas.is_empty());
    assert_eq!(reloj, None);
    assert_eq!(shell.syscalls_atendidas(), antes);
}

fn listar(s: &mut InterfazSyscalls) -> Vec<(u32, usize, u32, bool)> {
    match s.llamar(Syscall::ListarProcesos) {
        Retorno::Procesos(l) => l
            .iter()
            .map(|p| (p.pid, p.paginas, p.hechas, p.estado == arquitecturas_so::capa2_procesos::Estado::Terminado))
            .collect(),
        otro => panic!("retorno inesperado: {:?}", otro),
    }
}

#[test]
fn el_reloj_cuenta_las_instrucciones_hechas() {
    let mut s = so(8);
    crear(&mut s, "a", 2, 3);
    crear(&mut s, "b", 2, 5);
    s.llamar(Syscall::Planificar);
    s.llamar(Syscall::Planificar);
    let hechas: u64 = listar(&mut s).iter().map(|p| p.2 as u64).sum();
    assert_eq!(hechas, 7);
    assert!(matches!(s.llamar(Syscall::Reloj), Retorno::Reloj(7)));
}

#[test]
fn una_entrada_por_cada_creacion() {
    let mut s = so(4);
    assert!(matches!(crear(&mut s, "a", 2, 1), Retorno::Pid(1)));
    assert!(matches!(crear(&mut s, "grande", 9, 1), Retorno::Error { codigo: ENOMEM, .. }));
    assert!(matches!(s.llamar(Syscall::Terminar { pid: 1 }), Retorno::Liberados(2)));
    assert!(matches!(crear(&mut s, "b", 1, 1), Retorno::Pid(2)));
    let l = listar(&mut s);
    assert_eq!(l, vec![(1, 0, 0, true), (2, 1, 0, false)]);
}

#[test]
fn las_paginas_son_los_marcos_propios() {
    let mut s = so(8);
    crear(&mut s, "a", 3, 4);
    crear(&mut s, "b", 2, 9);
    crear(&mut s, "c", 1, 1);
    s.llamar(Syscall::Planificar);
    let l = listar(&mut s);
    let (u, _, mapa) = usados(&mut s);
    for p in &l {
        assert_eq!(p.1, mapa.iter().filter(|m| **m == Some(p.0)).count());
    }
    assert_eq!(l.iter().map(|p| p.1).sum::<usize>(), u);
    assert_eq!(u, 5);
}

#[test]
fn cada_llamada_refleja_la_capa_de_procesos() {
    let mut s = so(4);
    let mut t = Traza::nueva();
    let mut g = GestorProcesos::nuevo(GestorMemoria::nuevo(Hardware::nuevo(4, vec!["bloque0".into()])), 2);
    assert_eq!(g.crear("a", 2, 3, &mut t).unwrap(), 1);
    assert!(matches!(crear(&mut s, "a", 2, 3), Retorno::Pid(1)));
    assert!(matches!(g.crear("x", 5, 1, &mut t), Err(ErrorProcesos::SinMemoria(_))));
    assert!(matches!(crear(&mut s, "x", 5, 1), Retorno::Error { codigo: ENOMEM, nombre: "ENOMEM" }));
    assert_eq!(g.leer_bloque(1, 0, &mut t).unwrap(), "bloque0");
    assert!(matches!(s.llamar(Syscall::LeerBloque { pid: 1, bloque: 0 }), Retorno::Datos(d) if d == "bloque0"));
    assert!(matches!(g.leer_bloque(1, 3, &mut t), Err(ErrorProcesos::Disco(_))));
    assert!(matches!(s.llamar(Syscall::LeerBloque { pid: 1, bloque: 3 }), Retorno::Error { codigo: EIO, .. }));
    assert!(matches!(g.terminar(7, &mut t), Err(ErrorProcesos::PidInexistente(7))));
    assert!(matches!(s.llamar(Syscall::Terminar { pid: 7 }), Retorno::Error { codigo: ESRCH, .. }));
    assert_eq!(g.reloj(&mut t), 0);
    assert!(matches!(s.llamar(Syscall::Reloj), Retorno::Reloj(0)));
    assert_eq!(g.terminar(1, &mut t).unwrap(), 2);
    assert!(matches!(s.llamar(Syscall::Terminar { pid: 1 }), Retorno::Liberados(2)));
}

#[test]
fn tras_las_rondas_necesarias_todo_termina() {
    let mut s = so(8);
    crear(&mut s, "a", 4, 3);
    crear(&mut s, "b", 3, 5);
    crear(&mut s, "c", 1, 0);
    // quantum 2: a needs 2 rounds, b 3, c 1 (to finish)
    for _ in 0..3 {
        assert!(matches!(s.llamar(Syscall::Planificar), Retorno::Ronda(ev) if !ev.is_empty()));
    }
    let l = listar(&mut s);
    assert!(l.iter().all(|p| p.3 && p.1 == 0));
    assert_eq!(usados(&mut s).0, 0);
    assert!(matches!(s.llamar(Syscall::Planificar), Retorno::Ronda(ev) if ev.is_empty()));
}
