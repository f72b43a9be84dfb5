//! The decisions of the process and DLL entry points.
use vstd::prelude::*;

verus! {

/// The notification a DLL receives when it is loaded into a process.
pub const DLL_PROCESS_ATTACH: u32 = 1;

/// The notification a DLL receives when it is unloaded from a process.
pub const DLL_PROCESS_DETACH: u32 = 0;

/// The Win32 `BOOL` for true.
pub const TRUE: i32 = 1;

/// What the DLL entry point does for one notification: whether it runs the
/// static initializers, and the `BOOL` it returns to the loader.
pub struct DllStartup {
    pub run_static_init: bool,
    pub result: i32,
}

/// `DllMainCRTStartup`: the static initializers run when the DLL is attached
/// to a process, and on no other notification; every notification succeeds.
#[allow(non_snake_case)]
pub fn DllMainCRTStartup(reason: u32) -> (r: DllStartup)
    ensures
        r.run_static_init == (reason == DLL_PROCESS_ATTACH),
        r.result == TRUE,
{
    let run_static_init = if reason == DLL_PROCESS_ATTACH {
        true
    } else if reason == DLL_PROCESS_DETACH {
        false
    } else {
        false
    };
    DllStartup { run_static_init, result: TRUE }
}

/// The process exit code for the value `main` returned: the same 32 bits,
/// read as unsigned.
pub fn exit_code(main_ret: i32) -> (code: u32)
    ensures
        code as int == if main_ret >= 0 {
            main_ret as int
        } else {
            main_ret as int + 0x1_0000_0000
        },
{
    let code = #[verifier::truncate] (main_ret as u32);
    assert(code as int == if main_ret >= 0 {
        main_ret as int
    } else {
        main_ret as int + 0x1_0000_0000
    }) by (bit_vector)
        requires
            code == main_ret as u32,
    ;
    code
}

} // verus!
