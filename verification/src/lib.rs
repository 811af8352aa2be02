use vstd::prelude::*;

pub mod capa0_hardware;
pub mod capa1_memoria;
pub mod capa2_procesos;
pub mod capa3_syscalls;
pub mod capa4_usuario;
pub mod claves;
pub mod contenedor;
pub mod imagen;
pub mod kernel;
pub mod motor;
pub mod texto;
pub mod traza;

verus! {

} // verus!
