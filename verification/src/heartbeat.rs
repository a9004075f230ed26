//! The heartbeat that tells the server this device is alive.

use crate::device::DeviceInfo;
use crate::text::joined;
use vstd::prelude::*;

verus! {

/// Where and as whom to send heartbeats.
#[derive(Debug, PartialEq, Eq)]
pub struct HeartbeatConfig {
    pub url: String,
    pub token: String,
    pub device_fingerprint: String,
    pub app_version: String,
}

/// Model of a [`HeartbeatConfig`].
pub struct Heartbeat {
    pub url: Seq<char>,
    pub token: Seq<char>,
    pub device_fingerprint: Seq<char>,
    pub app_version: Seq<char>,
}

impl View for HeartbeatConfig {
    type V = Heartbeat;

    open spec fn view(&self) -> Heartbeat {
        Heartbeat {
            url: self.url@,
            token: self.token@,
            device_fingerprint: self.device_fingerprint@,
            app_version: self.app_version@,
        }
    }
}

/// Prepares the heartbeat of this device: it goes to `url` on the configured
/// server. Without the device's particulars there is none.
pub fn start_heartbeat_service(
    url: &str,
    token: String,
    device_info: Result<DeviceInfo, String>,
    app_version: String,
    server_url: &str,
) -> (result: Result<HeartbeatConfig, String>)
    ensures
        match device_info {
            Ok(info) => result matches Ok(config) && config@ == (Heartbeat {
                url: server_url@ + url@,
                token: token@,
                device_fingerprint: info.device_fingerprint@,
                app_version: app_version@,
            }),
            Err(error) => result matches Err(message) && message@ == error@,
        },
        result matches Ok(config) ==> {
            &&& config.url@ == server_url@ + url@
            &&& config.token@ == token@
            &&& config.device_fingerprint@ == device_info->Ok_0.device_fingerprint@
            &&& config.app_version@ == app_version@
        },
{
    match device_info {
        Ok(info) => Ok(
            HeartbeatConfig {
                url: joined(server_url, url),
                token,
                device_fingerprint: info.device_fingerprint,
                app_version,
            },
        ),
        Err(error) => Err(error),
    }
}

/// Replaces the token of the heartbeat that is running, if one is.
pub fn update_heartbeat_token(current: Option<HeartbeatConfig>, new_token: String) -> (result:
    Result<HeartbeatConfig, String>)
    ensures
        match current {
            Some(config) => result matches Ok(updated) && updated@ == (Heartbeat {
                token: new_token@,
                ..config@
            }),
            None => result matches Err(message) && message@ == "No active heartbeat to update"@,
        },
        result matches Ok(updated) ==> {
            &&& updated.token@ == new_token@
            &&& updated.url@ == current->0.url@
            &&& updated.device_fingerprint@ == current->0.device_fingerprint@
            &&& updated.app_version@ == current->0.app_version@
        },
{
    match current {
        Some(config) => Ok(
            HeartbeatConfig {
                url: config.url,
                token: new_token,
                device_fingerprint: config.device_fingerprint,
                app_version: config.app_version,
            },
        ),
        None => Err("No active heartbeat to update".to_owned()),
    }
}

/// A request about the heartbeat.
#[derive(Clone, Copy, Debug, PartialEq, Eq, Structural)]
pub enum HeartbeatRequest {
    Start,
    Stop,
    UpdateToken,
}

impl HeartbeatRequest {
    pub open spec fn confirmation(self) -> Seq<char> {
        match self {
            HeartbeatRequest::Start => "Heartbeat started"@,
            HeartbeatRequest::Stop => "Heartbeat stopped"@,
            HeartbeatRequest::UpdateToken => "Heartbeat token updated"@,
        }
    }

    /// Answers such a request, given what came of it.
    pub fn reply(self, result: Result<(), String>) -> (reply: Result<String, String>)
        ensures
            match result {
                Ok(_) => reply matches Ok(text) && text@ == self.confirmation(),
                Err(error) => reply matches Err(message) && message@ == error@,
            },
    {
        match result {
            Ok(_) => Ok(
                match self {
                    HeartbeatRequest::Start => "Heartbeat started".to_owned(),
                    HeartbeatRequest::Stop => "Heartbeat stopped".to_owned(),
                    HeartbeatRequest::UpdateToken => "Heartbeat token updated".to_owned(),
                },
            ),
            Err(error) => Err(error),
        }
    }
}

} // verus!
