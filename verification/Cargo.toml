[package]
name = "notepad-classic"
version = "0.1.0"
edition = "2021"
publish = false

[dependencies]
windows-sys = { version = "0.59", features = ["Win32_Foundation", "Win32_Globalization", "Win32_Graphics_Gdi", "Win32_System_LibraryLoader", "Win32_System_Registry", "Win32_System_SystemInformation", "Win32_System_SystemServices", "Win32_UI_Controls", "Win32_UI_Controls_Dialogs", "Win32_UI_HiDpi", "Win32_UI_Input_KeyboardAndMouse", "Win32_UI_Shell", "Win32_UI_WindowsAndMessaging"] }
windows = { version = "0.61", features = ["Foundation", "Foundation_Collections", "Graphics_Printing", "Win32_Foundation", "Win32_Graphics_Direct2D", "Win32_Graphics_Direct2D_Common", "Win32_Graphics_Direct3D", "Win32_Graphics_Direct3D11", "Win32_Graphics_DirectWrite", "Win32_Graphics_Dxgi", "Win32_Graphics_Dxgi_Common", "Win32_Graphics_Imaging", "Win32_Graphics_Printing", "Win32_Storage_Xps", "Win32_Storage_Xps_Printing", "Win32_System_Com", "Win32_System_WinRT", "Win32_System_WinRT_Printing"] }
windows-future = "0.2"
windows-numerics = "0.2"
