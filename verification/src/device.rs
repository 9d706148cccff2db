//! The dispatch model for the optional external accelerator.
//!
//! The accelerator itself (device enumeration, buffer upload, kernels) is
//! an external collaborator reached from unverified driver code; what this
//! module holds is the decision core: the registry of device units and
//! uploaded parameter sets, and the checks that pick a device or a
//! distinguishable error for each request.  The CPU path is always the
//! fallback, and an accelerator result must equal the CPU result — the
//! driver re-checks by these contracts and never silently substitutes a
//! wrong answer.  The context is an explicitly passed handle, not a hidden
//! global.

use vstd::prelude::*;

verus! {

/// GPU model.
#[derive(Clone, Copy, PartialEq, Eq, Structural, Debug)]
pub enum DeviceGPUType {
    /// No recognized model.
    GPUNone,
    /// A first recognized discrete model.
    GPUNVIDIA3090,
    /// Its enhanced variant.
    GPUNVIDIA3090TI,
    /// A second recognized discrete model.
    GPUNVIDIA4090,
    /// Its enhanced variant.
    GPUNVIDIA4090TI,
}

/// Device kind: GPU or FPGA.
#[derive(Clone, Copy, PartialEq, Eq, Structural, Debug)]
pub enum DeviceType {
    /// No device.
    DeviceTypeNone,
    /// A GPU device.
    DeviceTypeGPU,
    /// An FPGA device.
    DeviceTypeFPGA,
}

/// The kind of computation a unit serves.
#[derive(Clone, Copy, PartialEq, Eq, Structural, Debug)]
pub enum DeviceUnitType {
    /// Not dedicated.
    DeviceUnitTypeNone,
    /// Multi-scalar multiplication.
    DeviceUnitTypeMSM,
    /// The radix-2 transform.
    DeviceUnitTypeNTT,
}

/// Current status of a unit.
#[derive(Clone, Copy, PartialEq, Eq, Structural, Debug)]
pub enum DeviceStatusType {
    /// Unknown.
    DeviceStatusNone,
    /// Free to take work.
    DeviceStatusIdle,
    /// Initialized and ready.
    DeviceStatusReady,
    /// Busy.
    DeviceStatusRunning,
}

/// The kind of initialization requested.
#[derive(Clone, Copy, PartialEq, Eq, Structural, Debug)]
pub enum DeviceInitUnitType {
    /// Nothing.
    DeviceInitUnitTypeNone,
    /// Upload MSM base points.
    DeviceInitUnitTypeMSM,
    /// Upload a root-of-unity context.
    DeviceInitUnitTypeNTT,
    /// Both.
    DevicerInitUnitTypeALL,
}

/// One device unit of the registry.
#[derive(Clone, Copy, PartialEq, Eq, Structural, Debug)]
pub struct DeviceUnit {
    /// The unit's device identifier.
    pub device_id: usize,
    /// The device kind.
    pub device_type: DeviceType,
    /// The computation the unit serves.
    pub device_unit_type: DeviceUnitType,
    /// The unit's status.
    pub device_status: DeviceStatusType,
}

/// One uploaded MSM parameter set: an opaque session identifier and the
/// number of base-point sets uploaded under it.
#[derive(Clone, Copy, PartialEq, Eq, Structural, Debug)]
pub struct MSMParamUnit {
    /// The session identifier the caller registered.
    pub param_id: usize,
    /// Whether the slot is in use.
    pub in_usze: bool,
    /// Whether the upload completed.
    pub init_flag: bool,
    /// How many base-point sets the slot holds.
    pub base_sets: usize,
}

/// The NTT context slot.
#[derive(Clone, Copy, PartialEq, Eq, Structural, Debug)]
pub struct NTTParamUnit {
    /// Whether the slot is in use.
    pub in_usze: bool,
    /// Whether the upload completed.
    pub init_flag: bool,
}

/// The errors of the dispatch layer.
#[derive(Clone, Copy, PartialEq, Eq, Structural, Debug)]
pub enum DeviceManagerError {
    /// No device is present.
    DeviceManagerErrorGetDeviceNum,
    /// Devices exist, but none is idle.
    DeviceManagerErrorNoAvailableDevice,
    /// The base-set index is out of range for the parameter set.
    DeviceManagerErrorBasesIndex,
    /// The parameter identifier was never registered.
    DeviceManagerErrorParamIdNone,
    /// Selecting the device failed.
    DeviceManagerSetDeviceError,
    /// Reading device information failed.
    DeviceManagerErrorGetDeviceInfo,
}

/// The decision core of the device manager: the registry of units and
/// uploaded parameter sets.  Uploading and running kernels is the driver's
/// job; this state decides, for each request, which unit serves it or
/// which error to return.
pub struct DeviceManagerContext {
    /// The registered device units.
    pub units: Vec<DeviceUnit>,
    /// The uploaded MSM parameter sets.
    pub msm_params: Vec<MSMParamUnit>,
    /// The NTT context slot.
    pub ntt_param: NTTParamUnit,
}

/// Unit `i` of the registry is an idle unit of the given device and unit
/// kind.
pub open spec fn idle_unit_at(
    us: Seq<DeviceUnit>,
    device_type: DeviceType,
    unit_type: DeviceUnitType,
    i: int,
) -> bool {
    &&& 0 <= i < us.len()
    &&& us[i].device_type == device_type
    &&& us[i].device_unit_type == unit_type
    &&& us[i].device_status == DeviceStatusType::DeviceStatusIdle
}

/// Some idle unit of the given device and unit kind is registered.
pub open spec fn has_idle_unit(
    us: Seq<DeviceUnit>,
    device_type: DeviceType,
    unit_type: DeviceUnitType,
) -> bool {
    exists|i: int| #[trigger] idle_unit_at(us, device_type, unit_type, i)
}

/// Some idle unit of the given device and unit kind carries identifier
/// `id`.
pub open spec fn idle_unit_with_id(
    us: Seq<DeviceUnit>,
    device_type: DeviceType,
    unit_type: DeviceUnitType,
    id: usize,
) -> bool {
    exists|i: int| #[trigger] idle_unit_at(us, device_type, unit_type, i) && us[i].device_id == id
}

/// Slot `i` is a registered, completed MSM parameter set under `param_id`.
pub open spec fn msm_param_at(ps: Seq<MSMParamUnit>, param_id: usize, i: int) -> bool {
    &&& 0 <= i < ps.len()
    &&& ps[i].param_id == param_id
    &&& ps[i].init_flag
}

/// A registered, completed MSM parameter set under `param_id` exists.
pub open spec fn has_msm_param(ps: Seq<MSMParamUnit>, param_id: usize) -> bool {
    exists|i: int| #[trigger] msm_param_at(ps, param_id, i)
}

/// A registered, completed set under `param_id` holds more than
/// `bases_index` base-point sets.
pub open spec fn msm_param_serves_index(
    ps: Seq<MSMParamUnit>,
    param_id: usize,
    bases_index: usize,
) -> bool {
    exists|i: int| #[trigger] msm_param_at(ps, param_id, i) && bases_index < ps[i].base_sets
}

impl DeviceManagerContext {
    /// An empty registry: no units, no uploads.
    pub fn init() -> (r: DeviceManagerContext)
        ensures
            r.units@.len() == 0,
            r.msm_params@.len() == 0,
            !r.ntt_param.in_usze,
            !r.ntt_param.init_flag,
    {
        DeviceManagerContext {
            units: Vec::new(),
            msm_params: Vec::new(),
            ntt_param: NTTParamUnit { in_usze: false, init_flag: false },
        }
    }

    /// Clears the registry: every upload and unit is forgotten, on every
    /// exit path of the owning driver.
    pub fn deinit(&mut self)
        ensures
            final(self).units@.len() == 0,
            final(self).msm_params@.len() == 0,
            !final(self).ntt_param.in_usze,
            !final(self).ntt_param.init_flag,
    {
        self.units = Vec::new();
        self.msm_params = Vec::new();
        self.ntt_param = NTTParamUnit { in_usze: false, init_flag: false };
    }

    /// Registers one device unit.
    pub fn register_unit(&mut self, unit: DeviceUnit)
        ensures
            final(self).units@ == old(self).units@.push(unit),
            final(self).msm_params@ == old(self).msm_params@,
            final(self).ntt_param == old(self).ntt_param,
    {
        self.units.push(unit);
    }

    /// Registers an uploaded MSM parameter set under `param_id` with
    /// `base_sets` base-point sets.
    pub fn register_msm_param(&mut self, param_id: usize, base_sets: usize)
        ensures
            final(self).msm_params@ == old(self).msm_params@.push(
                MSMParamUnit { param_id, in_usze: true, init_flag: true, base_sets },
            ),
            final(self).units@ == old(self).units@,
            final(self).ntt_param == old(self).ntt_param,
    {
        self.msm_params.push(
            MSMParamUnit { param_id, in_usze: true, init_flag: true, base_sets },
        );
    }

    /// Registers the uploaded NTT context.
    pub fn register_ntt(&mut self)
        ensures
            final(self).ntt_param == (NTTParamUnit { in_usze: true, init_flag: true }),
            final(self).units@ == old(self).units@,
            final(self).msm_params@ == old(self).msm_params@,
    {
        self.ntt_param = NTTParamUnit { in_usze: true, init_flag: true };
    }

    /// The identifier of the first idle unit of the given device and unit
    /// kind, if one exists.
    pub fn get_device_id(
        &self,
        device_type: DeviceType,
        unit_type: DeviceUnitType,
    ) -> (r: Option<usize>)
        ensures
            r is Some <==> has_idle_unit(self.units@, device_type, unit_type),
            r is Some ==> idle_unit_with_id(self.units@, device_type, unit_type, r->Some_0),
    {
        let mut i: usize = 0;
        while i < self.units.len()
            invariant
                i <= self.units@.len(),
                forall|t: int|
                    0 <= t < i ==> !idle_unit_at(self.units@, device_type, unit_type, t),
            decreases self.units@.len() - i,
        {
            let u = self.units[i];
            if u.device_type == device_type && u.device_unit_type == unit_type && matches!(
                u.device_status,
                DeviceStatusType::DeviceStatusIdle,
            ) {
                proof {
                    assert(idle_unit_at(self.units@, device_type, unit_type, i as int));
                }
                return Some(u.device_id);
            }
            proof {
                assert(!idle_unit_at(self.units@, device_type, unit_type, i as int));
            }
            i = i + 1;
        }
        proof {
            assert forall|t: int| !idle_unit_at(self.units@, device_type, unit_type, t) by {
                if 0 <= t < self.units@.len() {
                }
            }
        }
        None
    }

    /// Decides an MSM request: the identifier must name a registered,
    /// completed parameter set (else the parameter error), the base-set
    /// index must be in range for it (else the index error), and an idle
    /// GPU MSM unit must exist (else the no-device error, on which the
    /// driver falls back to the CPU path rather than substitute a wrong
    /// result); exactly then the request succeeds, with such a unit's
    /// identifier.
    pub fn execute_msm(&self, param_id: usize, bases_index: usize) -> (r: Result<
        usize,
        DeviceManagerError,
    >)
        ensures
            (r is Err && r->Err_0 == DeviceManagerError::DeviceManagerErrorParamIdNone)
                <==> !has_msm_param(self.msm_params@, param_id),
            (r is Err && r->Err_0 == DeviceManagerError::DeviceManagerErrorBasesIndex) <==> (
            has_msm_param(self.msm_params@, param_id) && !msm_param_serves_index(
                self.msm_params@,
                param_id,
                bases_index,
            )),
            (r is Err && r->Err_0 == DeviceManagerError::DeviceManagerErrorNoAvailableDevice)
                <==> (msm_param_serves_index(self.msm_params@, param_id, bases_index)
                && !has_idle_unit(
                self.units@,
                DeviceType::DeviceTypeGPU,
                DeviceUnitType::DeviceUnitTypeMSM,
            )),
            r is Ok <==> (msm_param_serves_index(self.msm_params@, param_id, bases_index)
                && has_idle_unit(
                self.units@,
                DeviceType::DeviceTypeGPU,
                DeviceUnitType::DeviceUnitTypeMSM,
            )),
            r is Ok ==> idle_unit_with_id(
                self.units@,
                DeviceType::DeviceTypeGPU,
                DeviceUnitType::DeviceUnitTypeMSM,
                r->Ok_0,
            ),
    {
        // find a registered, completed parameter set under this identifier
        let mut found: bool = false;
        let mut ok_index: bool = false;
        let mut i: usize = 0;
        while i < self.msm_params.len()
            invariant
                i <= self.msm_params@.len(),
                found <==> exists|t: int|
                    0 <= t < i && #[trigger] msm_param_at(self.msm_params@, param_id, t),
                ok_index <==> exists|t: int|
                    0 <= t < i && #[trigger] msm_param_at(self.msm_params@, param_id, t)
                        && bases_index < self.msm_params@[t].base_sets,
            decreases self.msm_params@.len() - i,
        {
            let p = self.msm_params[i];
            if p.param_id == param_id && p.init_flag {
                proof {
                    assert(msm_param_at(self.msm_params@, param_id, i as int));
                }
                found = true;
                if bases_index < p.base_sets {
                    ok_index = true;
                }
            }
            i = i + 1;
        }
        proof {
            assert(found <==> has_msm_param(self.msm_params@, param_id));
            assert(ok_index <==> msm_param_serves_index(
                self.msm_params@,
                param_id,
                bases_index,
            ));
        }
        if !found {
            return Err(DeviceManagerError::DeviceManagerErrorParamIdNone);
        }
        if !ok_index {
            return Err(DeviceManagerError::DeviceManagerErrorBasesIndex);
        }
        match self.get_device_id(
            DeviceType::DeviceTypeGPU,
            DeviceUnitType::DeviceUnitTypeMSM,
        ) {
            Some(id) => Ok(id),
            None => Err(DeviceManagerError::DeviceManagerErrorNoAvailableDevice),
        }
    }

    /// Decides a transform request: the root-of-unity context must be
    /// uploaded (else the parameter error) and an idle GPU NTT unit must
    /// exist (else the no-device error); exactly then the request
    /// succeeds, with such a unit's identifier.
    pub fn execute_ntt(&self) -> (r: Result<usize, DeviceManagerError>)
        ensures
            (r is Err && r->Err_0 == DeviceManagerError::DeviceManagerErrorParamIdNone)
                <==> !self.ntt_param.init_flag,
            (r is Err && r->Err_0 == DeviceManagerError::DeviceManagerErrorNoAvailableDevice)
                <==> (self.ntt_param.init_flag && !has_idle_unit(
                self.units@,
                DeviceType::DeviceTypeGPU,
                DeviceUnitType::DeviceUnitTypeNTT,
            )),
            r is Ok <==> (self.ntt_param.init_flag && has_idle_unit(
                self.units@,
                DeviceType::DeviceTypeGPU,
                DeviceUnitType::DeviceUnitTypeNTT,
            )),
            r is Ok ==> idle_unit_with_id(
                self.units@,
                DeviceType::DeviceTypeGPU,
                DeviceUnitType::DeviceUnitTypeNTT,
                r->Ok_0,
            ),
    {
        if !self.ntt_param.init_flag {
            return Err(DeviceManagerError::DeviceManagerErrorParamIdNone);
        }
        match self.get_device_id(
            DeviceType::DeviceTypeGPU,
            DeviceUnitType::DeviceUnitTypeNTT,
        ) {
            Some(id) => Ok(id),
            None => Err(DeviceManagerError::DeviceManagerErrorNoAvailableDevice),
        }
    }

    /// The number of registered device units.
    pub fn get_gpu_unit_number(&self) -> (r: usize)
        ensures
            r == self.units@.len(),
    {
        self.units.len()
    }

    /// The number of registered MSM parameter sets.
    pub fn get_gpu_msm_param_uints_number(&self) -> (r: usize)
        ensures
            r == self.msm_params@.len(),
    {
        self.msm_params.len()
    }
}

/// The caller-held manager: an explicitly owned handle around the decision
/// core, obtained by initialization and passed by reference wherever
/// acceleration is wanted.
pub struct DeviceManager {
    /// The wrapped decision core.
    pub device_manager_handle: DeviceManagerContext,
}

impl DeviceManager {
    /// A manager with an empty registry.
    pub fn new() -> (r: DeviceManager)
        ensures
            r.device_manager_handle.units@.len() == 0,
            r.device_manager_handle.msm_params@.len() == 0,
            !r.device_manager_handle.ntt_param.init_flag,
    {
        DeviceManager { device_manager_handle: DeviceManagerContext::init() }
    }

    /// Borrows the decision core.
    pub fn get_handle(&self) -> (r: &DeviceManagerContext)
        ensures
            r == &self.device_manager_handle,
    {
        &self.device_manager_handle
    }

    /// Borrows the decision core mutably.
    pub fn get_handle_mut(&mut self) -> (r: &mut DeviceManagerContext) {
        &mut self.device_manager_handle
    }
}

} // verus!
