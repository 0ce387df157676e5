use vstd::prelude::*;

use crate::geometry::{rect_height, rect_intersection, rect_width, PhysicalRect};
use crate::renderer::FrameReason;
use crate::text::{append_chars, chars_of, string_of};

verus! {

/// The graphics driver an application asks for.
#[derive(Clone, Copy, Debug, PartialEq, Eq, Structural, Hash)]
pub enum GraphicsPreference {
    Auto,
    Software,
    OpenGl,
    Vulkan,
    Metal,
}

impl GraphicsPreference {
    /// The lower-case name of the driver.
    pub fn as_str(self) -> (r: &'static str)
        ensures
            r@ == match self {
                GraphicsPreference::Auto => "auto"@,
                GraphicsPreference::Software => "software"@,
                GraphicsPreference::OpenGl => "opengl"@,
                GraphicsPreference::Vulkan => "vulkan"@,
                GraphicsPreference::Metal => "metal"@,
            },
    {
        match self {
            GraphicsPreference::Auto => "auto",
            GraphicsPreference::Software => "software",
            GraphicsPreference::OpenGl => "opengl",
            GraphicsPreference::Vulkan => "vulkan",
            GraphicsPreference::Metal => "metal",
        }
    }
}

/// The application backend that runs windows on winit with a Skia renderer.
#[derive(Clone, Copy, Debug)]
pub struct WinitApplication {
    preference: GraphicsPreference,
}

impl WinitApplication {
    pub closed spec fn spec_preference(self) -> GraphicsPreference {
        self.preference
    }

    /// A backend that keeps the preference as given; an unavailable explicit driver is
    /// reported when the first renderer is created.
    pub fn new(preference: GraphicsPreference) -> (r: WinitApplication)
        ensures
            r.spec_preference() == preference,
    {
        WinitApplication { preference }
    }

    pub fn preference(&self) -> (r: GraphicsPreference)
        ensures
            r == self.spec_preference(),
    {
        self.preference
    }
}

/// A failure of the winit backend, with its message.
#[derive(Debug)]
pub struct WinitApplicationError(pub String);

impl WinitApplicationError {
    pub fn message(&self) -> (r: &str)
        ensures
            r@ == self.0@,
    {
        self.0.as_str()
    }
}

/// The GPU drivers a build carries.
#[derive(Clone, Copy, Debug, PartialEq, Eq, Structural)]
pub struct CompiledDrivers {
    pub opengl: bool,
    /// Vulkan, on Windows or Linux.
    pub vulkan: bool,
    /// Whether `Auto` tries Vulkan first (Linux builds with Vulkan).
    pub vulkan_in_auto: bool,
    /// Metal, on macOS.
    pub metal: bool,
}

/// The drivers of this build: the software renderer only, no GPU backend.
pub fn compiled_drivers() -> (r: CompiledDrivers)
    ensures
        r == (CompiledDrivers { opengl: false, vulkan: false, vulkan_in_auto: false, metal: false }),
{
    CompiledDrivers { opengl: false, vulkan: false, vulkan_in_auto: false, metal: false }
}

pub open spec fn preference_supported(drivers: CompiledDrivers, preference: GraphicsPreference) -> bool {
    match preference {
        GraphicsPreference::Auto | GraphicsPreference::Software => true,
        GraphicsPreference::OpenGl => drivers.opengl,
        GraphicsPreference::Vulkan => drivers.vulkan,
        GraphicsPreference::Metal => drivers.metal,
    }
}

/// Whether a build with `drivers` can honour `preference`.
pub fn graphics_preference_supported_by(drivers: CompiledDrivers, preference: GraphicsPreference) -> (r: bool)
    ensures
        r == preference_supported(drivers, preference),
{
    match preference {
        GraphicsPreference::Auto | GraphicsPreference::Software => true,
        GraphicsPreference::OpenGl => drivers.opengl,
        GraphicsPreference::Vulkan => drivers.vulkan,
        GraphicsPreference::Metal => drivers.metal,
    }
}

/// Whether this build can honour `preference`.
pub fn graphics_preference_supported(preference: GraphicsPreference) -> (r: bool)
    ensures
        r == preference_supported(
            CompiledDrivers { opengl: false, vulkan: false, vulkan_in_auto: false, metal: false },
            preference,
        ),
{
    graphics_preference_supported_by(compiled_drivers(), preference)
}

/// The drivers `Auto` tries, in order: Metal, Vulkan, OpenGL where built, then software.
pub open spec fn auto_order_of(drivers: CompiledDrivers) -> Seq<GraphicsPreference> {
    (if drivers.metal {
        seq![GraphicsPreference::Metal]
    } else {
        Seq::empty()
    }) + (if drivers.vulkan_in_auto {
        seq![GraphicsPreference::Vulkan]
    } else {
        Seq::empty()
    }) + (if drivers.opengl {
        seq![GraphicsPreference::OpenGl]
    } else {
        Seq::empty()
    }) + seq![GraphicsPreference::Software]
}

pub fn auto_driver_order_for(drivers: CompiledDrivers) -> (r: Vec<GraphicsPreference>)
    ensures
        r@ == auto_order_of(drivers),
{
    let mut order: Vec<GraphicsPreference> = Vec::new();
    if drivers.metal {
        order.push(GraphicsPreference::Metal);
    }
    if drivers.vulkan_in_auto {
        order.push(GraphicsPreference::Vulkan);
    }
    if drivers.opengl {
        order.push(GraphicsPreference::OpenGl);
    }
    order.push(GraphicsPreference::Software);
    assert(order@ =~= auto_order_of(drivers));
    order
}

/// The drivers `Auto` tries in this build.
pub fn auto_driver_order() -> (r: Vec<GraphicsPreference>)
    ensures
        r@ == auto_order_of(
            CompiledDrivers { opengl: false, vulkan: false, vulkan_in_auto: false, metal: false },
        ),
{
    auto_driver_order_for(compiled_drivers())
}

/// Every driver that `Auto` tries is one the build supports, and the software renderer
/// comes last.
pub proof fn law_auto_order_is_supported(drivers: CompiledDrivers)
    requires
        drivers.vulkan_in_auto ==> drivers.vulkan,
    ensures
        forall|i: int|
            0 <= i < auto_order_of(drivers).len() ==> preference_supported(
                drivers,
                #[trigger] auto_order_of(drivers)[i],
            ),
        auto_order_of(drivers).last() == GraphicsPreference::Software,
{
    let order = auto_order_of(drivers);
    assert forall|i: int| 0 <= i < order.len() implies preference_supported(drivers, #[trigger] order[i]) by {
        let m: Seq<GraphicsPreference> = if drivers.metal { seq![GraphicsPreference::Metal] } else { Seq::empty() };
        let v: Seq<GraphicsPreference> = if drivers.vulkan_in_auto { seq![GraphicsPreference::Vulkan] } else { Seq::empty() };
        let o: Seq<GraphicsPreference> = if drivers.opengl { seq![GraphicsPreference::OpenGl] } else { Seq::empty() };
        assert(order == m + v + o + seq![GraphicsPreference::Software]);
        if i < m.len() {
            assert(order[i] == m[i]);
        } else if i < m.len() + v.len() {
            assert(order[i] == v[i - m.len()]);
        } else if i < m.len() + v.len() + o.len() {
            assert(order[i] == o[i - m.len() - v.len()]);
        } else {
            assert(order[i] == GraphicsPreference::Software);
        }
    }
}

/// The driver a renderer is recreated with after a failure, and whether that is a
/// fallback to software: only `Auto` falls back, once it already had, or when a GPU
/// renderer failed on the second attempt or later.
pub open spec fn recovery_preference_of(
    configured: GraphicsPreference,
    was_fallback: bool,
    gpu_failure: bool,
    attempt: u8,
) -> (GraphicsPreference, bool) {
    if configured == GraphicsPreference::Auto && (was_fallback || (gpu_failure && attempt >= 2)) {
        (GraphicsPreference::Software, true)
    } else {
        (configured, false)
    }
}

pub fn recovery_preference(
    configured: GraphicsPreference,
    was_fallback: bool,
    gpu_failure: bool,
    attempt: u8,
) -> (r: (GraphicsPreference, bool))
    ensures
        r == recovery_preference_of(configured, was_fallback, gpu_failure, attempt),
{
    let use_software = configured == GraphicsPreference::Auto && (was_fallback || (gpu_failure
        && attempt >= 2));
    if use_software {
        (GraphicsPreference::Software, true)
    } else {
        (configured, false)
    }
}

/// An explicitly chosen driver is never silently replaced during recovery.
pub proof fn law_explicit_preference_is_kept(
    configured: GraphicsPreference,
    was_fallback: bool,
    gpu_failure: bool,
    attempt: u8,
)
    requires
        configured != GraphicsPreference::Auto,
    ensures
        recovery_preference_of(configured, was_fallback, gpu_failure, attempt) == (configured, false),
{
}

/// How many times a failed renderer is recreated before the window gives up.
pub const MAX_RECOVERY_ATTEMPTS: u8 = 3;

/// The health of a window's renderer.
#[derive(Clone, Copy, Debug)]
pub enum RendererRecoveryState {
    Healthy,
    Recovering { attempt: u8, gpu_failure: bool },
    Fallback { reason: &'static str, attempts: u8 },
    Failed { attempts: u8 },
}

pub open spec fn attempt_of(state: RendererRecoveryState) -> u8 {
    match state {
        RendererRecoveryState::Healthy => 0,
        RendererRecoveryState::Fallback { attempts, .. } => attempts,
        RendererRecoveryState::Recovering { attempt, .. } => attempt,
        RendererRecoveryState::Failed { attempts } => attempts,
    }
}

impl RendererRecoveryState {
    /// The recovery attempts made so far.
    pub fn attempt(self) -> (r: u8)
        ensures
            r == attempt_of(self),
    {
        match self {
            RendererRecoveryState::Healthy => 0,
            RendererRecoveryState::Fallback { attempts, .. } => attempts,
            RendererRecoveryState::Recovering { attempt, .. } => attempt,
            RendererRecoveryState::Failed { attempts } => attempts,
        }
    }

    pub fn label(self) -> (r: &'static str)
        ensures
            r@ == match self {
                RendererRecoveryState::Healthy => "healthy"@,
                RendererRecoveryState::Recovering { .. } => "recovering"@,
                RendererRecoveryState::Fallback { .. } => "fallback"@,
                RendererRecoveryState::Failed { .. } => "failed"@,
            },
    {
        match self {
            RendererRecoveryState::Healthy => "healthy",
            RendererRecoveryState::Recovering { .. } => "recovering",
            RendererRecoveryState::Fallback { .. } => "fallback",
            RendererRecoveryState::Failed { .. } => "failed",
        }
    }
}

/// The state of a freshly created renderer: a fallback when the renderer reports why
/// it is not the preferred one.
pub fn renderer_recovery_state(fallback_reason: Option<&'static str>) -> (r: RendererRecoveryState)
    ensures
        match fallback_reason {
            Some(reason) => r == (RendererRecoveryState::Fallback { reason, attempts: 0 }),
            None => r == RendererRecoveryState::Healthy,
        },
{
    match fallback_reason {
        Some(reason) => RendererRecoveryState::Fallback { reason, attempts: 0 },
        None => RendererRecoveryState::Healthy,
    }
}

/// What a window does when its renderer fails.
#[derive(Clone, Copy, Debug)]
pub enum RecoveryStart {
    /// Every attempt is used up: the renderer is not recreated.
    GiveUp { state: RendererRecoveryState },
    /// Trim and drop the renderer, then recreate it with `preference`.
    Recreate {
        state: RendererRecoveryState,
        attempt: u8,
        preference: GraphicsPreference,
        fallback_to_software: bool,
    },
}

pub open spec fn begin_recovery_of(
    state: RendererRecoveryState,
    configured: GraphicsPreference,
    renderer_is_gpu: bool,
) -> RecoveryStart {
    let attempt = if attempt_of(state) == 255 {
        255int
    } else {
        attempt_of(state) + 1
    };
    let was_fallback = state is Fallback;
    let gpu_failure = match state {
        RendererRecoveryState::Recovering { gpu_failure, .. } => gpu_failure || renderer_is_gpu,
        RendererRecoveryState::Fallback { .. } => true,
        _ => renderer_is_gpu,
    };
    if attempt > MAX_RECOVERY_ATTEMPTS {
        RecoveryStart::GiveUp {
            state: RendererRecoveryState::Failed { attempts: MAX_RECOVERY_ATTEMPTS },
        }
    } else {
        let (preference, fallback_to_software) = recovery_preference_of(
            configured,
            was_fallback,
            gpu_failure,
            attempt as u8,
        );
        RecoveryStart::Recreate {
            state: RendererRecoveryState::Recovering { attempt: attempt as u8, gpu_failure },
            attempt: attempt as u8,
            preference,
            fallback_to_software,
        }
    }
}

/// The first half of a renderer recovery: count the attempt and pick the driver.
pub fn begin_recovery(
    state: RendererRecoveryState,
    configured: GraphicsPreference,
    renderer_is_gpu: bool,
) -> (r: RecoveryStart)
    ensures
        r == begin_recovery_of(state, configured, renderer_is_gpu),
{
    let attempt = state.attempt().saturating_add(1);
    let was_fallback = match state {
        RendererRecoveryState::Fallback { .. } => true,
        _ => false,
    };
    let gpu_failure = match state {
        RendererRecoveryState::Recovering { gpu_failure, .. } => gpu_failure || renderer_is_gpu,
        RendererRecoveryState::Fallback { .. } => true,
        _ => renderer_is_gpu,
    };
    if attempt > MAX_RECOVERY_ATTEMPTS {
        return RecoveryStart::GiveUp {
            state: RendererRecoveryState::Failed { attempts: MAX_RECOVERY_ATTEMPTS },
        };
    }
    let (preference, fallback_to_software) = recovery_preference(
        configured,
        was_fallback,
        gpu_failure,
        attempt,
    );
    RecoveryStart::Recreate {
        state: RendererRecoveryState::Recovering { attempt, gpu_failure },
        attempt,
        preference,
        fallback_to_software,
    }
}

/// How recreating a renderer went.
#[derive(Clone, Copy, Debug)]
pub enum RecreateOutcome {
    /// A renderer was created; it reports why it is not the preferred one, if it is not.
    Created { fallback_reason: Option<&'static str> },
    /// No renderer could be created.
    Failed,
}

pub open spec fn finish_recovery_of(
    state: RendererRecoveryState,
    attempt: u8,
    fallback_to_software: bool,
    outcome: RecreateOutcome,
) -> (RendererRecoveryState, bool) {
    match outcome {
        RecreateOutcome::Created { fallback_reason } => {
            let reason = if fallback_to_software {
                Some("gpu-runtime-failed")
            } else {
                fallback_reason
            };
            match reason {
                Some(reason) => (RendererRecoveryState::Fallback { reason, attempts: attempt }, true),
                None => (state, true),
            }
        },
        RecreateOutcome::Failed => if attempt == MAX_RECOVERY_ATTEMPTS {
            (RendererRecoveryState::Failed { attempts: attempt }, false)
        } else {
            (state, true)
        },
    }
}

/// The second half of a renderer recovery: the new state, and whether to ask for
/// another frame.
pub fn finish_recovery(
    state: RendererRecoveryState,
    attempt: u8,
    fallback_to_software: bool,
    outcome: RecreateOutcome,
) -> (r: (RendererRecoveryState, bool))
    ensures
        r == finish_recovery_of(state, attempt, fallback_to_software, outcome),
{
    match outcome {
        RecreateOutcome::Created { fallback_reason } => {
            let reason = if fallback_to_software {
                Some("gpu-runtime-failed")
            } else {
                fallback_reason
            };
            match reason {
                Some(reason) => (RendererRecoveryState::Fallback { reason, attempts: attempt }, true),
                None => (state, true),
            }
        },
        RecreateOutcome::Failed => if attempt == MAX_RECOVERY_ATTEMPTS {
            (RendererRecoveryState::Failed { attempts: attempt }, false)
        } else {
            (state, true)
        },
    }
}

/// Recovery never counts more than `MAX_RECOVERY_ATTEMPTS` attempts, whatever the
/// recreation gave.
pub proof fn law_recovery_attempts_are_bounded(
    state: RendererRecoveryState,
    configured: GraphicsPreference,
    renderer_is_gpu: bool,
    outcome: RecreateOutcome,
)
    requires
        attempt_of(state) <= MAX_RECOVERY_ATTEMPTS,
    ensures
        match begin_recovery_of(state, configured, renderer_is_gpu) {
            RecoveryStart::GiveUp { state: next } => attempt_of(next) <= MAX_RECOVERY_ATTEMPTS,
            RecoveryStart::Recreate { state: next, attempt, fallback_to_software, .. } => {
                &&& attempt_of(next) <= MAX_RECOVERY_ATTEMPTS
                &&& attempt_of(
                    finish_recovery_of(next, attempt, fallback_to_software, outcome).0,
                ) <= MAX_RECOVERY_ATTEMPTS
            },
        },
{
}

/// A mouse button as the windowing system reports it.
#[derive(Clone, Copy, Debug, PartialEq, Eq, Structural)]
pub enum MouseButton {
    Left,
    Right,
    Middle,
    Back,
    Forward,
    Other(u16),
}

/// A pointer button as the UI sees it.
#[derive(Clone, Copy, Debug, PartialEq, Eq, Structural)]
pub enum PointerButton {
    Left,
    Right,
    Middle,
    Back,
    Forward,
    Other(u16),
}

pub open spec fn pointer_button_of(button: MouseButton) -> PointerButton {
    match button {
        MouseButton::Left => PointerButton::Left,
        MouseButton::Right => PointerButton::Right,
        MouseButton::Middle => PointerButton::Middle,
        MouseButton::Back => PointerButton::Back,
        MouseButton::Forward => PointerButton::Forward,
        MouseButton::Other(value) => PointerButton::Other(value),
    }
}

/// The UI button of a windowing-system button; extended buttons keep their identity.
pub fn pointer_button(button: MouseButton) -> (r: PointerButton)
    ensures
        r == pointer_button_of(button),
{
    match button {
        MouseButton::Left => PointerButton::Left,
        MouseButton::Right => PointerButton::Right,
        MouseButton::Middle => PointerButton::Middle,
        MouseButton::Back => PointerButton::Back,
        MouseButton::Forward => PointerButton::Forward,
        MouseButton::Other(value) => PointerButton::Other(value),
    }
}

/// Distinct windowing-system buttons stay distinct in the UI.
pub proof fn law_pointer_button_is_injective(a: MouseButton, b: MouseButton)
    requires
        pointer_button_of(a) == pointer_button_of(b),
    ensures
        a == b,
{
}

/// A touch phase as the windowing system reports it.
#[derive(Clone, Copy, Debug, PartialEq, Eq, Structural)]
pub enum NativeTouchPhase {
    Started,
    Moved,
    Ended,
    Cancelled,
}

/// A touch phase as the UI sees it.
#[derive(Clone, Copy, Debug, PartialEq, Eq, Structural)]
pub enum TouchPhase {
    Started,
    Moved,
    Ended,
    Cancelled,
}

pub fn touch_phase(phase: NativeTouchPhase) -> (r: TouchPhase)
    ensures
        r == match phase {
            NativeTouchPhase::Started => TouchPhase::Started,
            NativeTouchPhase::Moved => TouchPhase::Moved,
            NativeTouchPhase::Ended => TouchPhase::Ended,
            NativeTouchPhase::Cancelled => TouchPhase::Cancelled,
        },
{
    match phase {
        NativeTouchPhase::Started => TouchPhase::Started,
        NativeTouchPhase::Moved => TouchPhase::Moved,
        NativeTouchPhase::Ended => TouchPhase::Ended,
        NativeTouchPhase::Cancelled => TouchPhase::Cancelled,
    }
}

/// The edge or corner a window is resized from.
#[derive(Clone, Copy, Debug, PartialEq, Eq, Structural)]
pub enum ResizeDirection {
    East,
    North,
    NorthEast,
    NorthWest,
    South,
    SouthEast,
    SouthWest,
    West,
}

pub open spec fn resize_direction_of(x: int, y: int, width: int, height: int, border: int) -> Option<
    ResizeDirection,
> {
    let left = x >= 0 && x < border;
    let right = x < width && x >= width - border;
    let top = y >= 0 && y < border;
    let bottom = y < height && y >= height - border;
    if left && top {
        Some(ResizeDirection::NorthWest)
    } else if right && top {
        Some(ResizeDirection::NorthEast)
    } else if left && bottom {
        Some(ResizeDirection::SouthWest)
    } else if right && bottom {
        Some(ResizeDirection::SouthEast)
    } else if left {
        Some(ResizeDirection::West)
    } else if right {
        Some(ResizeDirection::East)
    } else if top {
        Some(ResizeDirection::North)
    } else if bottom {
        Some(ResizeDirection::South)
    } else {
        None
    }
}

/// The resize handle under a point of a borderless window of the given size, where
/// `border` pixels along each edge resize; corners win over edges.
pub fn resize_direction(x: i32, y: i32, width: i32, height: i32, border: i32) -> (r: Option<
    ResizeDirection,
>)
    ensures
        r == resize_direction_of(x as int, y as int, width as int, height as int, border as int),
{
    let left = x >= 0 && x < border;
    let right = x < width && (x as i64) >= (width as i64) - (border as i64);
    let top = y >= 0 && y < border;
    let bottom = y < height && (y as i64) >= (height as i64) - (border as i64);
    if left && top {
        Some(ResizeDirection::NorthWest)
    } else if right && top {
        Some(ResizeDirection::NorthEast)
    } else if left && bottom {
        Some(ResizeDirection::SouthWest)
    } else if right && bottom {
        Some(ResizeDirection::SouthEast)
    } else if left {
        Some(ResizeDirection::West)
    } else if right {
        Some(ResizeDirection::East)
    } else if top {
        Some(ResizeDirection::North)
    } else if bottom {
        Some(ResizeDirection::South)
    } else {
        None
    }
}

/// The GPU drivers a renderer for `preference` is tried with, in order.
pub open spec fn gpu_attempts_of(preference: GraphicsPreference, drivers: CompiledDrivers) -> Seq<
    GraphicsPreference,
> {
    let auto = preference == GraphicsPreference::Auto;
    (if drivers.metal && (auto || preference == GraphicsPreference::Metal) {
        seq![GraphicsPreference::Metal]
    } else {
        Seq::empty()
    }) + (if preference == GraphicsPreference::Vulkan && drivers.vulkan || auto
        && drivers.vulkan_in_auto {
        seq![GraphicsPreference::Vulkan]
    } else {
        Seq::empty()
    }) + (if drivers.opengl && (auto || preference == GraphicsPreference::OpenGl) {
        seq![GraphicsPreference::OpenGl]
    } else {
        Seq::empty()
    })
}

/// The GPU drivers tried, in order, before the software renderer.
pub fn gpu_attempt_order(preference: GraphicsPreference, drivers: CompiledDrivers) -> (r: Vec<
    GraphicsPreference,
>)
    ensures
        r@ == gpu_attempts_of(preference, drivers),
{
    let auto = preference == GraphicsPreference::Auto;
    let mut order: Vec<GraphicsPreference> = Vec::new();
    if drivers.metal && (auto || preference == GraphicsPreference::Metal) {
        order.push(GraphicsPreference::Metal);
    }
    if preference == GraphicsPreference::Vulkan && drivers.vulkan || auto && drivers.vulkan_in_auto {
        order.push(GraphicsPreference::Vulkan);
    }
    if drivers.opengl && (auto || preference == GraphicsPreference::OpenGl) {
        order.push(GraphicsPreference::OpenGl);
    }
    assert(order@ =~= gpu_attempts_of(preference, drivers));
    order
}

/// Why `Auto` moved past a GPU driver that failed to start.
pub fn driver_failure_reason(driver: GraphicsPreference) -> (r: &'static str)
    ensures
        r@ == match driver {
            GraphicsPreference::Metal => "metal-init-failed"@,
            GraphicsPreference::Vulkan => "vulkan-init-failed"@,
            _ => "opengl-init-failed"@,
        },
{
    match driver {
        GraphicsPreference::Metal => "metal-init-failed",
        GraphicsPreference::Vulkan => "vulkan-init-failed",
        _ => "opengl-init-failed",
    }
}

/// What follows a GPU driver that failed to start: an explicitly chosen driver reports
/// the failure (`None`); otherwise the next driver is tried, remembering why.
pub fn after_driver_failure(preference: GraphicsPreference, driver: GraphicsPreference) -> (r: Option<
    &'static str,
>)
    ensures
        (r is None) == (preference == driver),
        r matches Some(reason) ==> reason@ == match driver {
            GraphicsPreference::Metal => "metal-init-failed"@,
            GraphicsPreference::Vulkan => "vulkan-init-failed"@,
            _ => "opengl-init-failed"@,
        },
{
    if preference == driver {
        None
    } else {
        Some(driver_failure_reason(driver))
    }
}

/// The message of the error an explicit driver that is not built gives.
pub open spec fn unavailable_driver_message(preference: GraphicsPreference) -> Seq<char> {
    "the "@ + match preference {
        GraphicsPreference::Auto => "auto"@,
        GraphicsPreference::Software => "software"@,
        GraphicsPreference::OpenGl => "opengl"@,
        GraphicsPreference::Vulkan => "vulkan"@,
        GraphicsPreference::Metal => "metal"@,
    } + " Skia driver is not available on this target"@
}

/// The outcome once every GPU driver tried has failed: the software renderer, with the
/// reason it stands in for a GPU one, where `preference` allows software; else an error.
pub fn software_fallback(preference: GraphicsPreference, fallback_reason: Option<&'static str>) -> (r: Result<
    Option<&'static str>,
    WinitApplicationError,
>)
    ensures
        match r {
            Ok(reason) => {
                &&& (preference == GraphicsPreference::Auto || preference == GraphicsPreference::Software)
                &&& reason == match fallback_reason {
                    Some(why) => Some(why),
                    None => if preference == GraphicsPreference::Auto {
                        Some("gpu-driver-unavailable")
                    } else {
                        None
                    },
                }
            },
            Err(e) => {
                &&& preference != GraphicsPreference::Auto
                &&& preference != GraphicsPreference::Software
                &&& e.0@ == unavailable_driver_message(preference)
            },
        },
{
    if preference != GraphicsPreference::Auto && preference != GraphicsPreference::Software {
        let mut message = chars_of("the ");
        let name = chars_of(preference.as_str());
        append_chars(&mut message, &name);
        let tail = chars_of(" Skia driver is not available on this target");
        append_chars(&mut message, &tail);
        return Err(WinitApplicationError(string_of(&message)));
    }
    match fallback_reason {
        Some(why) => Ok(Some(why)),
        None => if preference == GraphicsPreference::Auto {
            Ok(Some("gpu-driver-unavailable"))
        } else {
            Ok(None)
        },
    }
}

/// An explicit GPU driver that the build does not carry is never replaced: no driver is
/// tried and the software step reports an error.
pub proof fn law_unavailable_explicit_driver_is_an_error(
    preference: GraphicsPreference,
    drivers: CompiledDrivers,
)
    requires
        drivers.vulkan_in_auto ==> drivers.vulkan,
        preference != GraphicsPreference::Auto,
        preference != GraphicsPreference::Software,
        !preference_supported(drivers, preference),
    ensures
        gpu_attempts_of(preference, drivers).len() == 0,
{
}

/// Every GPU driver tried is one the preference allows and the build carries.
pub proof fn law_gpu_attempts_are_supported(preference: GraphicsPreference, drivers: CompiledDrivers)
    requires
        drivers.vulkan_in_auto ==> drivers.vulkan,
    ensures
        forall|i: int|
            0 <= i < gpu_attempts_of(preference, drivers).len() ==> {
                let d = #[trigger] gpu_attempts_of(preference, drivers)[i];
                &&& preference_supported(drivers, d)
                &&& (preference == GraphicsPreference::Auto || d == preference)
            },
{
    let order = gpu_attempts_of(preference, drivers);
    let auto = preference == GraphicsPreference::Auto;
    let m: Seq<GraphicsPreference> = if drivers.metal && (auto || preference == GraphicsPreference::Metal) { seq![GraphicsPreference::Metal] } else { Seq::empty() };
    let v: Seq<GraphicsPreference> = if preference == GraphicsPreference::Vulkan && drivers.vulkan || auto && drivers.vulkan_in_auto { seq![GraphicsPreference::Vulkan] } else { Seq::empty() };
    let o: Seq<GraphicsPreference> = if drivers.opengl && (auto || preference == GraphicsPreference::OpenGl) { seq![GraphicsPreference::OpenGl] } else { Seq::empty() };
    assert(order == m + v + o);
    assert forall|i: int| 0 <= i < order.len() implies {
        let d = #[trigger] order[i];
        &&& preference_supported(drivers, d)
        &&& (preference == GraphicsPreference::Auto || d == preference)
    } by {
        if i < m.len() {
            assert(order[i] == m[i]);
        } else if i < m.len() + v.len() {
            assert(order[i] == v[i - m.len()]);
        } else {
            assert(order[i] == o[i - m.len() - v.len()]);
        }
    }
}


/// The backend a window's Skia renderer draws with.
#[derive(Clone, Copy, Debug)]
pub enum SkiaBackend {
    /// The CPU raster, with the reason a GPU driver was given up, if one was.
    Software { fallback_reason: Option<&'static str> },
    OpenGl,
    Vulkan,
    Metal,
    /// No surface could be made.
    Unavailable,
}

impl SkiaBackend {
    /// The renderer's name as it reports it.
    pub fn name(&self) -> (r: &'static str)
        ensures
            r@ == match *self {
                SkiaBackend::Software { .. } => "skia-software"@,
                SkiaBackend::OpenGl => "skia-opengl"@,
                SkiaBackend::Vulkan => "skia-vulkan"@,
                SkiaBackend::Metal => "skia-metal"@,
                SkiaBackend::Unavailable => "skia-unavailable"@,
            },
    {
        match self {
            SkiaBackend::Software { .. } => "skia-software",
            SkiaBackend::OpenGl => "skia-opengl",
            SkiaBackend::Vulkan => "skia-vulkan",
            SkiaBackend::Metal => "skia-metal",
            SkiaBackend::Unavailable => "skia-unavailable",
        }
    }

    /// Why the renderer fell back to the CPU, if it did.
    pub fn fallback_reason(&self) -> (r: Option<&'static str>)
        ensures
            r == match *self {
                SkiaBackend::Software { fallback_reason } => fallback_reason,
                _ => None,
            },
    {
        match self {
            SkiaBackend::Software { fallback_reason } => *fallback_reason,
            _ => None,
        }
    }

    /// Whether the renderer draws on the GPU.
    pub fn is_gpu(&self) -> (r: bool)
        ensures
            r == (*self is OpenGl || *self is Vulkan || *self is Metal),
    {
        match self {
            SkiaBackend::Software { .. } | SkiaBackend::Unavailable => false,
            _ => true,
        }
    }
}


/// What a window's state says about drawing a frame now.
#[derive(Clone, Copy, Debug)]
pub struct RenderGate {
    pub visible: bool,
    pub owner_suppressed: bool,
    pub occluded: bool,
    pub recovery: RendererRecoveryState,
    /// The window's inner size in physical pixels.
    pub width: u32,
    pub height: u32,
}

/// Whether a window draws nothing at all: hidden, suppressed by its owner, occluded,
/// with a renderer that gave up, or of zero size.
pub open spec fn render_skipped(gate: RenderGate) -> bool {
    !gate.visible || gate.owner_suppressed || gate.occluded || gate.recovery is Failed || gate.width
        == 0 || gate.height == 0
}

/// The viewport of a window in physical pixels.
pub open spec fn gate_viewport(gate: RenderGate) -> PhysicalRect {
    PhysicalRect { left: 0, top: 0, right: gate.width as i32, bottom: gate.height as i32 }
}

/// The parts of `rects` inside `viewport`, in order, dropping those outside it.
pub open spec fn clipped_rects(rects: Seq<PhysicalRect>, viewport: PhysicalRect) -> Seq<PhysicalRect>
    decreases rects.len(),
{
    if rects.len() == 0 {
        Seq::empty()
    } else {
        let rest = clipped_rects(rects.drop_last(), viewport);
        match rect_intersection(rects.last(), viewport) {
            Some(r) => rest.push(r),
            None => rest,
        }
    }
}

/// What a window does on a redraw request.
#[derive(Debug)]
pub enum FramePlan {
    /// Nothing is drawn.
    Skip,
    /// Nothing changed on screen: the next frame is scheduled instead.
    Idle,
    /// The damage is drawn and presented.
    Draw { damage: Vec<PhysicalRect>, reason: FrameReason, full_redraw: bool },
}

/// The damage a window draws: its whole viewport when everything is redrawn, else the
/// parts of the dirty rectangles inside it.
pub open spec fn planned_damage(gate: RenderGate, full_redraw: bool, dirty: Seq<PhysicalRect>) -> Seq<
    PhysicalRect,
> {
    if full_redraw {
        seq![gate_viewport(gate)]
    } else {
        clipped_rects(dirty, gate_viewport(gate))
    }
}

/// How a window draws a frame: not at all when it is hidden, occluded, empty or its
/// renderer failed; idle when nothing it shows changed; else the damage, the whole
/// viewport for a full redraw (a resize) and the dirty rectangles clipped to the viewport
/// otherwise, redrawing everything when asked to or when the dirty region covers it all.
pub fn frame_plan(gate: RenderGate, full_redraw: bool, dirty: &[PhysicalRect], dirty_is_full: bool) -> (r:
    FramePlan)
    ensures
        match r {
            FramePlan::Skip => render_skipped(gate),
            FramePlan::Idle => !render_skipped(gate) && !full_redraw && planned_damage(
                gate,
                full_redraw,
                dirty@,
            ).len() == 0,
            FramePlan::Draw { damage, reason, full_redraw: full } => {
                &&& !render_skipped(gate)
                &&& damage@ == planned_damage(gate, full_redraw, dirty@)
                &&& (full_redraw || damage@.len() > 0)
                &&& reason == (if full_redraw {
                    FrameReason::Resize
                } else {
                    FrameReason::SceneChange
                })
                &&& full == (full_redraw || dirty_is_full)
            },
        },
{
    let failed = match gate.recovery {
        RendererRecoveryState::Failed { .. } => true,
        _ => false,
    };
    if !gate.visible || gate.owner_suppressed || gate.occluded || failed {
        return FramePlan::Skip;
    }
    if gate.width == 0 || gate.height == 0 {
        return FramePlan::Skip;
    }
    let viewport = PhysicalRect::new(0, 0, gate.width as i32, gate.height as i32);
    let mut damage: Vec<PhysicalRect> = Vec::new();
    if full_redraw {
        damage.push(viewport);
        assert(damage@ =~= seq![gate_viewport(gate)]);
    } else {
        let mut i: usize = 0;
        while i < dirty.len()
            invariant
                i <= dirty@.len(),
                viewport == gate_viewport(gate),
                damage@ == clipped_rects(dirty@.take(i as int), viewport),
            decreases dirty@.len() - i,
        {
            assert(dirty@.take(i + 1).drop_last() =~= dirty@.take(i as int));
            match dirty[i].intersect(viewport) {
                Some(rect) => damage.push(rect),
                None => {},
            }
            i = i + 1;
        }
        assert(dirty@.take(i as int) =~= dirty@);
        if damage.len() == 0 {
            return FramePlan::Idle;
        }
    }
    let reason = if full_redraw {
        FrameReason::Resize
    } else {
        FrameReason::SceneChange
    };
    FramePlan::Draw { damage, reason, full_redraw: full_redraw || dirty_is_full }
}

/// The renderer's health after a frame was presented: a fallback renderer keeps its
/// reason with its attempts cleared, anything else is healthy again.
pub fn recovery_after_presented_frame(state: RendererRecoveryState) -> (r: RendererRecoveryState)
    ensures
        r == match state {
            RendererRecoveryState::Fallback { reason, .. } => RendererRecoveryState::Fallback {
                reason,
                attempts: 0,
            },
            _ => RendererRecoveryState::Healthy,
        },
{
    match state {
        RendererRecoveryState::Fallback { reason, .. } => RendererRecoveryState::Fallback {
            reason,
            attempts: 0,
        },
        _ => RendererRecoveryState::Healthy,
    }
}


/// What a pointer press on a window without a native title bar starts.
#[derive(Clone, Copy, Debug, PartialEq, Eq, Structural)]
pub enum WindowDrag {
    /// Nothing: the press goes to the interface only.
    Nothing,
    /// Resizing from the border the press landed on.
    Resize(ResizeDirection),
    /// Moving the window by a drag region.
    Move,
}

/// What a pointer press starts: on a left press in a window drawing its own title bar, a
/// resize where it lands on the border of a resizable window, else a move where it lands
/// on a drag region.
pub fn window_drag_on_press(
    pressed: bool,
    button: PointerButton,
    native_titlebar: bool,
    resizable: bool,
    border: Option<ResizeDirection>,
    over_drag_region: bool,
) -> (r: WindowDrag)
    ensures
        r == (if pressed && button is Left && !native_titlebar {
            if resizable && border is Some {
                WindowDrag::Resize(border.unwrap())
            } else if over_drag_region {
                WindowDrag::Move
            } else {
                WindowDrag::Nothing
            }
        } else {
            WindowDrag::Nothing
        }),
{
    let left = match button {
        PointerButton::Left => true,
        _ => false,
    };
    if !pressed || !left || native_titlebar {
        return WindowDrag::Nothing;
    }
    if resizable {
        if let Some(direction) = border {
            return WindowDrag::Resize(direction);
        }
    }
    if over_drag_region {
        WindowDrag::Move
    } else {
        WindowDrag::Nothing
    }
}

/// A BGRA pixel as the `0RGB` word that a software framebuffer takes.
pub open spec fn xrgb_of(blue: u8, green: u8, red: u8) -> u32 {
    (red * 65536 + green * 256 + blue) as u32
}

/// Copies rendered BGRA pixels into a framebuffer of `0RGB` words, one word a pixel, as far
/// as both reach; the rest of the framebuffer stays as it was.
pub fn pack_xrgb(buffer: &mut Vec<u32>, pixels: &[u8])
    ensures
        final(buffer)@.len() == old(buffer)@.len(),
        forall|i: int|
            0 <= i < old(buffer)@.len() ==> #[trigger] final(buffer)@[i] == if i < pixels@.len() / 4 {
                xrgb_of(pixels@[4 * i], pixels@[4 * i + 1], pixels@[4 * i + 2])
            } else {
                old(buffer)@[i]
            },
{
    let count = if buffer.len() < pixels.len() / 4 {
        buffer.len()
    } else {
        pixels.len() / 4
    };
    let mut i: usize = 0;
    while i < count
        invariant
            i <= count,
            count <= old(buffer)@.len(),
            count <= pixels@.len() / 4,
            pixels@.len() == pixels.len(),
            buffer@.len() == old(buffer)@.len(),
            forall|j: int|
                0 <= j < old(buffer)@.len() ==> #[trigger] buffer@[j] == if j < i {
                    xrgb_of(pixels@[4 * j], pixels@[4 * j + 1], pixels@[4 * j + 2])
                } else {
                    old(buffer)@[j]
                },
        decreases count - i,
    {
        assert(4 * i + 3 < pixels@.len());
        let base = 4 * i;
        let word = (pixels[base + 2] as u32) * 65536 + (pixels[base + 1] as u32) * 256 + (pixels[base] as u32);
        buffer.set(i, word);
        i = i + 1;
    }
}

/// A damaged region of a software framebuffer.
#[derive(Clone, Copy, Debug, PartialEq, Eq, Structural)]
pub struct DamageSpan {
    pub x: u32,
    pub y: u32,
    pub width: u32,
    pub height: u32,
}

/// The framebuffer region of a damaged rectangle, its origin clamped to zero; none for a
/// rectangle with no width or no height.
pub open spec fn damage_span_of(r: PhysicalRect) -> Option<DamageSpan> {
    if rect_width(r) > 0 && rect_height(r) > 0 {
        Some(
            DamageSpan {
                x: if r.left < 0 { 0 } else { r.left as u32 },
                y: if r.top < 0 { 0 } else { r.top as u32 },
                width: rect_width(r) as u32,
                height: rect_height(r) as u32,
            },
        )
    } else {
        None
    }
}

/// The framebuffer regions of damaged rectangles, in order, empty rectangles left out.
pub open spec fn damage_spans_of(rects: Seq<PhysicalRect>) -> Seq<DamageSpan>
    decreases rects.len(),
{
    if rects.len() == 0 {
        Seq::empty()
    } else {
        match damage_span_of(rects.last()) {
            Some(span) => damage_spans_of(rects.drop_last()).push(span),
            None => damage_spans_of(rects.drop_last()),
        }
    }
}

/// The regions of a frame's damage that a software framebuffer presents.
pub fn damage_spans(damage: &[PhysicalRect]) -> (r: Vec<DamageSpan>)
    ensures
        r@ == damage_spans_of(damage@),
{
    let mut spans: Vec<DamageSpan> = Vec::new();
    let mut i: usize = 0;
    while i < damage.len()
        invariant
            i <= damage@.len(),
            spans@ == damage_spans_of(damage@.take(i as int)),
        decreases damage@.len() - i,
    {
        let rect = damage[i];
        let width = rect.width();
        let height = rect.height();
        proof {
            assert(damage@.take(i + 1).drop_last() =~= damage@.take(i as int));
        }
        if width > 0 && height > 0 {
            spans.push(
                DamageSpan {
                    x: if rect.left < 0 { 0 } else { rect.left as u32 },
                    y: if rect.top < 0 { 0 } else { rect.top as u32 },
                    width: width as u32,
                    height: height as u32,
                },
            );
        }
        i = i + 1;
    }
    assert(damage@.take(damage@.len() as int) =~= damage@);
    spans
}

} // verus!
