//! Registration of built-in modules into the compilation registry.

use vstd::prelude::*;
use crate::options::LogLevel;
use crate::registry::BuiltInModule;
use crate::registry_service::RegistryService;
use crate::tokens::EnvironmentPort;

verus! {

/// Registers modules of built-in behaviors.
pub struct ModuleService<'a, E: EnvironmentPort> {
    pub env: &'a E,
    pub log_level: LogLevel,
}

impl<'a, E: EnvironmentPort> ModuleService<'a, E> {
    pub fn new(env: &'a E, log_level: LogLevel) -> (r: Self)
        ensures
            r.env == env,
            r.log_level == log_level,
    {
        ModuleService { env, log_level }
    }

    /// Lets `module` register its signatures in the registry's symbol table;
    /// the shapes and the log level of the registry are left as they are.
    pub fn register_module<M: BuiltInModule>(&self, registry: &mut RegistryService, module: &M)
        ensures
            final(registry).symbols() == module.registered(old(registry).symbols()),
            forall|n: Seq<char>| final(registry).spec_shape(n) == old(registry).spec_shape(n),
            final(registry).spec_shape_names() == old(registry).spec_shape_names(),
            final(registry).spec_shapes() == old(registry).spec_shapes(),
            final(registry).spec_log_level() == old(registry).spec_log_level(),
    {
        module.register(registry.symbols_mut());
    }
}

} // verus!
