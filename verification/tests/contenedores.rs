use arquitecturas_so::contenedor::Estado;
use arquitecturas_so::kernel::{ErrorKernel, Kernel, TipoNs};
use arquitecturas_so::motor::{Conexion, Efecto, Memoria, Motor, Opciones};

fn motor_con_dos() -> Motor {
    let mut m = Motor::nuevo(Kernel::arrancar(1024));
    let _ = m.pull("nginx:1.27");
    let _ = m.pull("postgres:16");
    m.run("a", "nginx:1.27", Opciones { memoria_mb: 32, cpus_milesimas: 500 }).1.unwrap();
    m.run("b", "postgres:16", Opciones { memoria_mb: 64, cpus_milesimas: 500 }).1.unwrap();
    m
}

fn motor_de_la_demo() -> Motor {
    let mut m = Motor::nuevo(Kernel::arrancar(2048));
    m.pull("nginx:1.27").unwrap();
    m.pull("postgres:16").unwrap();
    m.run("web", "nginx:1.27", Opciones { memoria_mb: 64, cpus_milesimas: 500 }).1.unwrap();
    m.run("web2", "nginx:1.27", Opciones { memoria_mb: 64, cpus_milesimas: 500 }).1.unwrap();
    m.run("db", "postgres:16", Opciones { memoria_mb: 256, cpus_milesimas: 1000 }).1.unwrap();
    m
}

#[test]
fn pid_namespace_y_kernel_compartido() {
    let mut k = Kernel::arrancar(1024);
    let ns1 = k.unshare("t", TipoNs::Pid).unwrap();
    let ns2 = k.unshare("t", TipoNs::Pid).unwrap();
    let (h1, l1) = k.clone_proceso("t", "p", Some(ns1), None, 0).unwrap();
    let (h2, l2) = k.clone_proceso("t", "q", Some(ns2), None, 0).unwrap();
    assert_eq!((l1, l2), (1, 1));
    assert_ne!(h1, h2);
    assert_eq!(k.ps("t", Some(ns1)).unwrap().len(), 1);
    assert!(k.ps("t", None).unwrap().len() >= 5);
}

#[test]
fn oom_solo_afecta_a_su_cgroup() {
    let mut m = motor_con_dos();
    m.pedir_memoria("b", 500, "prueba").unwrap();
    m.pedir_memoria("a", 4, "prueba").unwrap();
}

#[test]
fn panico_detiene_todo() {
    let mut m = motor_con_dos();
    m.fallo_del_kernel("a");
    assert!(matches!(m.host_ps(), Err(ErrorKernel::Panico)));
}

#[test]
fn el_kernel_arranca_con_sus_procesos() {
    let mut k = Kernel::arrancar(2048);
    let todos = k.ps("host", None).unwrap();
    let nombres: Vec<&str> = todos.iter().map(|p| p.nombre.as_str()).collect();
    assert_eq!(nombres, vec!["systemd", "sshd", "dockerd"]);
    assert_eq!(todos[0].pid, 1);
    assert_eq!(k.memoria_host(), (58, 2048));
    assert_eq!(k.version(), "6.8.0-generic");
}

#[test]
fn la_primera_direccion_del_bridge() {
    let mut k = Kernel::arrancar(1024);
    let n = k.unshare("t", TipoNs::Net).unwrap();
    assert_eq!(k.conectar_bridge("t", n).unwrap(), "172.18.0.2");
    assert_eq!(k.conectar_bridge("t", n).unwrap(), "172.18.0.3");
}

#[test]
fn conexion_rechazada_a_una_direccion_desconocida() {
    let mut k = Kernel::arrancar(1024);
    let n = k.unshare("t", TipoNs::Net).unwrap();
    let ip = k.conectar_bridge("t", n).unwrap();
    match k.enviar("t", &ip, "10.0.0.9", 80) {
        Err(ErrorKernel::ConexionRechazada(d)) => assert_eq!(d, "10.0.0.9:80"),
        _ => panic!("se esperaba una conexión rechazada"),
    }
    assert_eq!(k.paquetes(), 0);
}

#[test]
fn memoria_para_un_pid_inexistente() {
    let mut k = Kernel::arrancar(1024);
    assert!(matches!(k.reservar_memoria("t", 999, 4), Err(ErrorKernel::SinProceso(999))));
}

#[test]
fn el_oom_mata_todo_el_namespace() {
    let mut k = Kernel::arrancar(1024);
    let ns = k.unshare("t", TipoNs::Pid).unwrap();
    k.crear_cgroup("t", "/g", 10, 1000).unwrap();
    let (p1, _) = k.clone_proceso("t", "uno", Some(ns), Some("/g"), 4).unwrap();
    let (p2, l2) = k.clone_proceso("t", "dos", Some(ns), Some("/g"), 2).unwrap();
    assert_eq!(l2, 2);
    match k.reservar_memoria("t", p1, 8) {
        Err(ErrorKernel::OomKill { pid, pedido, limite, uso, muertos }) => {
            assert_eq!((pid, pedido, limite, uso), (p1, 8, 10, 6));
            assert_eq!(muertos, vec![p1, p2]);
        },
        _ => panic!("se esperaba el OOM killer"),
    }
    assert!(!k.vivo(p1));
    assert!(!k.vivo(p2));
    assert!(k.vivo(1));
    assert_eq!(k.cgroup("/g").unwrap().uso_mem_mb, 0);
}

#[test]
fn el_kernel_en_panico_rechaza_todo() {
    let mut k = Kernel::arrancar(1024);
    k.panic();
    assert!(k.en_panico());
    assert!(matches!(k.syscall("host"), Err(ErrorKernel::Panico)));
    assert!(matches!(k.unshare("host", TipoNs::Pid), Err(ErrorKernel::Panico)));
    assert!(!k.vivo(1));
}

#[test]
fn las_syscalls_se_cuentan_por_origen() {
    let mut k = Kernel::arrancar(1024);
    k.syscall("web").unwrap();
    k.syscall("web").unwrap();
    k.syscall("db").unwrap();
    let lista: Vec<(String, u64)> = k.syscalls().clone();
    assert_eq!(
        lista,
        vec![("db".to_string(), 1), ("host".to_string(), 6), ("web".to_string(), 2)]
    );
}

#[test]
fn pull_reutiliza_la_capa_base() {
    let mut m = Motor::nuevo(Kernel::arrancar(1024));
    let nginx = m.pull("nginx:1.27").unwrap();
    assert_eq!(nginx.len(), 3);
    assert!(nginx.iter().all(|(_, _, ya)| !ya));
    assert_eq!(nginx[0].0, "sha256:4f4fb700ef54");
    assert_eq!(nginx[0].1, "FROM debian:bookworm-slim");
    let pg = m.pull("postgres:16").unwrap();
    let ya: Vec<bool> = pg.iter().map(|(_, _, y)| *y).collect();
    assert_eq!(ya, vec![true, false, false]);
    let de_nuevo = m.pull("nginx:1.27").unwrap();
    assert!(de_nuevo.iter().all(|(_, _, ya)| *ya));
}

#[test]
fn pull_de_una_imagen_que_no_existe() {
    let mut m = Motor::nuevo(Kernel::arrancar(1024));
    assert_eq!(m.pull("redis:7").unwrap_err(), "imagen 'redis:7' no encontrada en el registro");
}

#[test]
fn cada_capa_se_guarda_una_vez() {
    let mut m = Motor::nuevo(Kernel::arrancar(1024));
    m.pull("nginx:1.27").unwrap();
    m.pull("postgres:16").unwrap();
    let uso = m.capas_compartidas();
    let digests: Vec<&str> = uso.iter().map(|(d, _, _)| d.as_str()).collect();
    assert_eq!(
        digests,
        vec![
            "sha256:4f4fb700ef54",
            "sha256:7b8c9d0e1f2a",
            "sha256:9c1d2e3f4a5b",
            "sha256:a2abf6c4d29d",
            "sha256:e1e2f3a4b5c6",
        ]
    );
    let refs: Vec<usize> = uso.iter().map(|(_, _, n)| *n).collect();
    assert_eq!(refs, vec![2, 1, 1, 1, 1]);
    m.run("web", "nginx:1.27", Opciones { memoria_mb: 64, cpus_milesimas: 500 }).1.unwrap();
    let refs: Vec<usize> = m.capas_compartidas().iter().map(|(_, _, n)| *n).collect();
    assert_eq!(refs, vec![3, 1, 1, 2, 2]);
}

#[test]
fn run_arma_el_contenedor() {
    let mut m = Motor::nuevo(Kernel::arrancar(1024));
    m.pull("nginx:1.27").unwrap();
    let (montaje, r) = m.run("a", "nginx:1.27", Opciones { memoria_mb: 32, cpus_milesimas: 500 });
    let montaje = montaje.unwrap();
    let (pid_host, pid_local) = r.unwrap();
    assert_eq!(montaje.id, "bfe4d88f2353f60c345466e3acffa1fea8c3f53836ab4df0991e9fb0ec142266");
    assert_eq!(montaje.hostname, "bfe4d88f2353");
    assert_eq!(montaje.cgroup, "/docker/bfe4d88f2353");
    assert_eq!(montaje.ip, "172.18.0.2");
    assert_eq!(montaje.capas, 3);
    assert_eq!(montaje.proceso, "nginx: master process");
    assert_eq!(pid_local, 1);
    assert_eq!(pid_host, 1040);
    let ns = montaje.ns;
    assert_eq!((ns.mnt, ns.net, ns.uts), (ns.pid + 1, ns.pid + 2, ns.pid + 3));
    let c = m.contenedor("a").unwrap();
    assert_eq!(c.hostname, "bfe4d88f2353");
    assert_eq!(c.pid1, pid_host);
    assert_eq!(c.puerto, 80);
    assert_eq!(c.estado, Estado::Corriendo);
}

#[test]
fn el_id_sale_del_nombre() {
    let mut m = motor_de_la_demo();
    let web = m.contenedor("web").unwrap();
    assert_eq!(web.id, "8ea7d86ca0a6a7119f60a0a9af6faa333d76f82f3c8036757531ce44e84cc193");
    let db = m.contenedor("db").unwrap();
    assert_eq!(db.id, "ad2df65b9a687c43dbc2493c9b31012744ac73503010b223d7ee1b448c01866f");
    let r = m.identidad(Some("db")).unwrap();
    assert_eq!(r.0, "6.8.0-generic");
    assert_eq!(r.1, Some(("ad2df65b9a68".to_string(), "172.18.0.4".to_string())));
    let h = m.identidad(None).unwrap();
    assert_eq!(h, ("6.8.0-generic", None));
}

#[test]
fn run_sin_kernel_no_arma_nada() {
    let mut m = Motor::nuevo(Kernel::arrancar(1024));
    m.pull("nginx:1.27").unwrap();
    m.fallo_del_kernel("host");
    let (montaje, r) = m.run("a", "nginx:1.27", Opciones { memoria_mb: 32, cpus_milesimas: 500 });
    assert!(montaje.is_none());
    assert!(matches!(r, Err(ErrorKernel::Panico)));
    assert!(!m.existe("a"));
}

#[test]
fn cada_contenedor_tiene_su_pid_1() {
    let mut m = motor_de_la_demo();
    assert_eq!(m.hijo("web", "nginx: worker process", 6).unwrap().1, 2);
    assert_eq!(m.hijo("web", "nginx: worker process", 6).unwrap().1, 3);
    assert_eq!(m.hijo("db", "postgres: checkpointer", 10).unwrap().1, 2);
    let web = m.exec_ps("web").unwrap();
    let locales: Vec<u32> = web.iter().map(|p| p.pid_local).collect();
    assert_eq!(locales, vec![1, 2, 3]);
    let host = m.host_ps().unwrap();
    assert_eq!(host.len(), 3 + 3 + 1 + 2);
    assert_eq!(host[0].1, "(host)");
    let de_web = host.iter().filter(|(_, c)| c == "web").count();
    assert_eq!(de_web, 3);
}

#[test]
fn copy_on_write_sin_tocar_la_imagen() {
    let mut m = motor_de_la_demo();
    assert_eq!(m.escribir("web", "/usr/share/nginx/html/index.html", "<h1>Hola desde web</h1>").unwrap(), 'C');
    assert_eq!(m.escribir("web", "/tmp/sesion.txt", "usuario=henry").unwrap(), 'A');
    m.borrar("web", "/usr/share/nginx/html/50x.html").unwrap();
    assert_eq!(
        m.leer("web", "/usr/share/nginx/html/index.html").unwrap(),
        Some(("<h1>Hola desde web</h1>".to_string(), "capa rw del contenedor".to_string()))
    );
    assert_eq!(
        m.leer("web2", "/usr/share/nginx/html/index.html").unwrap(),
        Some(("<h1>Welcome to nginx!</h1>".to_string(), "capa imagen e1e2f3a4b5c6".to_string()))
    );
    assert_eq!(m.leer("db", "/tmp/sesion.txt").unwrap(), None);
    assert_eq!(m.leer("web", "/usr/share/nginx/html/50x.html").unwrap(), None);
    assert_eq!(
        m.leer("web2", "/usr/share/nginx/html/50x.html").unwrap(),
        Some(("<h1>Error del servidor</h1>".to_string(), "capa imagen e1e2f3a4b5c6".to_string()))
    );
    assert_eq!(
        m.leer("db", "/etc/os-release").unwrap(),
        Some(("Debian GNU/Linux 12 (bookworm)".to_string(), "capa imagen 4f4fb700ef54".to_string()))
    );
    assert_eq!(
        m.diff("web"),
        vec![
            ('A', "/tmp/sesion.txt".to_string()),
            ('D', "/usr/share/nginx/html/50x.html".to_string()),
            ('C', "/usr/share/nginx/html/index.html".to_string()),
        ]
    );
    assert!(m.diff("web2").is_empty());
}

#[test]
fn escribir_tras_borrar_es_un_cambio() {
    let mut m = motor_de_la_demo();
    m.borrar("web", "/etc/os-release").unwrap();
    assert_eq!(m.escribir("web", "/etc/os-release", "otro").unwrap(), 'C');
    assert_eq!(m.diff("web"), vec![('C', "/etc/os-release".to_string())]);
}

#[test]
fn comunicacion_por_el_bridge() {
    let mut m = motor_de_la_demo();
    let red_web = m.contenedor("web").unwrap().ns.net;
    let red_db = m.contenedor("db").unwrap().ns.net;
    match m.conectar("web", "db", "SELECT id, usuario FROM usuarios;").unwrap() {
        Conexion::Respuesta { ip, puerto, redes, texto } => {
            assert_eq!(ip, "172.18.0.4");
            assert_eq!(puerto, 5432);
            assert_eq!(redes, (red_web, red_db));
            assert_eq!(texto, " id | usuario\n    ----+--------\n     1  | henry\n    (1 fila)");
        },
        Conexion::SinResolver => panic!("db debería resolverse"),
    }
    m.escribir("web", "/usr/share/nginx/html/index.html", "<h1>Hola desde web</h1>").unwrap();
    match m.conectar("web2", "web", "GET / HTTP/1.1").unwrap() {
        Conexion::Respuesta { ip, texto, .. } => {
            assert_eq!(ip, "172.18.0.2");
            assert_eq!(texto, "HTTP/1.1 200 OK\n    <h1>Hola desde web</h1>");
        },
        Conexion::SinResolver => panic!("web debería resolverse"),
    }
    assert!(matches!(m.conectar("web", "nadie", "x").unwrap(), Conexion::SinResolver));
    assert_eq!(m.resumen_kernel().paquetes, 4);
}

#[test]
fn una_pagina_borrada_da_404() {
    let mut m = motor_de_la_demo();
    m.borrar("web", "/usr/share/nginx/html/index.html").unwrap();
    match m.conectar("web2", "web", "GET / HTTP/1.1").unwrap() {
        Conexion::Respuesta { texto, .. } => assert_eq!(texto, "HTTP/1.1 404"),
        Conexion::SinResolver => panic!("web debería resolverse"),
    }
}

#[test]
fn oom_detiene_solo_al_que_se_excede() {
    let mut m = motor_de_la_demo();
    match m.pedir_memoria("web", 20, "caché de páginas").unwrap() {
        Memoria::Concedida { uso_mem_mb, limite_mem_mb } => assert_eq!((uso_mem_mb, limite_mem_mb), (28, 64)),
        Memoria::Matado { .. } => panic!("web no se excede"),
    }
    match m.pedir_memoria("db", 300, "ordenar una tabla grande").unwrap() {
        Memoria::Matado { pedido, limite, uso, .. } => assert_eq!((pedido, limite, uso), (300, 256, 40)),
        Memoria::Concedida { .. } => panic!("db se excede"),
    }
    let filas = m.docker_ps().unwrap();
    let estados: Vec<(String, Estado, Option<String>)> =
        filas.into_iter().map(|(_, _, e, ip, n)| (n, e, ip)).collect();
    assert_eq!(
        estados,
        vec![
            ("web".to_string(), Estado::Corriendo, Some("172.18.0.2".to_string())),
            ("web2".to_string(), Estado::Corriendo, Some("172.18.0.3".to_string())),
            ("db".to_string(), Estado::Detenido(137), None),
        ]
    );
    assert!(matches!(m.conectar("web", "db", "SELECT 1;").unwrap(), Conexion::SinResolver));
}

#[test]
fn stats_de_los_que_corren() {
    let mut m = motor_de_la_demo();
    m.hijo("web", "nginx: worker process", 6).unwrap();
    let _ = m.pedir_memoria("db", 300, "ordenar").unwrap();
    let filas = m.stats();
    assert_eq!(filas.len(), 2);
    assert_eq!(filas[0], ("web".to_string(), 14, 64, 500, 2, 2));
    assert_eq!(filas[1], ("web2".to_string(), 8, 64, 500, 1, 0));
}

#[test]
fn resumen_del_kernel_compartido() {
    let m = motor_de_la_demo();
    let r = m.resumen_kernel();
    assert_eq!(r.contenedores, 3);
    assert_eq!(r.namespaces, 12);
    assert_eq!(r.cgroups, 3);
    assert_eq!((r.mem_usada_mb, r.mem_total_mb), (58 + 8 + 8 + 40, 2048));
    assert_eq!(r.syscalls, vec![("dockerd".to_string(), 24), ("host".to_string(), 6)]);
    assert_eq!(r.syscalls_total, 30);
}

#[test]
fn el_panico_tumba_a_todos() {
    let mut m = motor_de_la_demo();
    let _ = m.pedir_memoria("db", 300, "ordenar").unwrap();
    let (efectos, r) = m.fallo_del_kernel("web2");
    assert_eq!(
        efectos,
        vec![
            ("web".to_string(), Efecto::Caido),
            ("web2".to_string(), Efecto::Caido),
            ("db".to_string(), Efecto::YaDetenido),
        ]
    );
    assert!(matches!(r, Err(ErrorKernel::Panico)));
    assert!(m.docker_ps().is_none());
    assert!(matches!(m.escribir("web", "/tmp/x", "y"), Err(ErrorKernel::Panico)));
}

#[test]
fn los_errores_del_kernel_como_texto() {
    let oom = ErrorKernel::OomKill { pid: 1043, pedido: 300, limite: 256, uso: 40, muertos: vec![1043, 1046] };
    assert_eq!(
        oom.texto(),
        "OOM: PID 1043 pidió 300 MB (uso 40 / límite 256); procesos eliminados: [1043, 1046]"
    );
    let vacio = ErrorKernel::OomKill { pid: 7, pedido: 1, limite: 0, uso: 0, muertos: vec![] };
    assert_eq!(vacio.texto(), "OOM: PID 7 pidió 1 MB (uso 0 / límite 0); procesos eliminados: []");
    assert_eq!(ErrorKernel::SinProceso(9).texto(), "no existe el proceso 9");
    assert_eq!(
        ErrorKernel::ConexionRechazada("10.0.0.9:80".to_string()).texto(),
        "conexión rechazada hacia 10.0.0.9:80"
    );
    assert_eq!(ErrorKernel::Panico.texto(), "kernel en pánico: no atiende syscalls");
}

#[test]
fn el_segundo_pull_no_cambia_nada() {
    let mut m = Motor::nuevo(Kernel::arrancar(1024));
    m.pull("nginx:1.27").unwrap();
    m.pull("postgres:16").unwrap();
    let antes = m.capas_compartidas();
    let de_nuevo = m.pull("postgres:16").unwrap();
    assert_eq!(de_nuevo.len(), 3);
    assert!(de_nuevo.iter().all(|(_, _, ya)| *ya));
    assert_eq!(m.capas_compartidas(), antes);
}

#[test]
fn el_id_es_hexadecimal() {
    let m = motor_de_la_demo();
    for nombre in ["web", "db"] {
        let id = m.contenedor(nombre).unwrap().id.clone();
        assert_eq!(id.len(), 64);
        assert!(id.chars().all(|c| c.is_ascii_digit() || ('a'..='f').contains(&c)));
    }
}
